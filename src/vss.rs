//! The sharing protocol: a dealer, receivers that cross-check and co-sign
//! share values, reconstructors that filter them, and a client that
//! recovers the secret.
use vstd::prelude::*;
use vstd::arithmetic::power::pow;
use vstd::arithmetic::div_mod::lemma_small_mod;
use crate::field::{modulus, fe_to_bytes, le_bytes, seeded_draws, seeded_field_elements, Fe};
use crate::polynomials::{column_coeffs, lemma_column_poly, lemma_fits_agree, coeff_fn, int_coeffs, int_poly_value, lemma_interpolant_matches, all_wf, has_duplicate, is_effective_degree, separated, lemma_interpolant_unique, lemma_tri_monotone, points, triangle, tri, Poly, SymBVPoly};
use crate::sums::{lemma_monomial_trailing_zeros, lemma_sum_ext};
use crate::signature::{ed25519_accepts, generate_signing_key, sign_message, verify_signature, SigningKey};

verus! {

/// Parameters fixed at the start of a run.
#[derive(Clone, Copy, Debug, PartialEq, Eq, Structural)]
pub struct PubParams {
    /// Number of parties that may misbehave.
    pub t: u64,
    /// Number of receivers.
    pub n: u64,
    /// Number of parties in the wider protocol population.
    pub n_parties_total: u64,
}

impl PubParams {
    /// At least one receiver, and sizes that fit the machine's integers.
    pub open spec fn wf(&self) -> bool {
        &&& 1 <= self.n
        &&& self.n < usize::MAX
        &&& self.n < u64::MAX
        &&& self.t < usize::MAX
        &&& 2 * self.t + 1 <= u64::MAX
        &&& tri((self.t + 1) as nat) <= usize::MAX
    }
}

/// The view of an optional signature.
pub open spec fn sig_view(o: Option<Vec<u8>>) -> Option<Seq<u8>> {
    match o {
        Some(v) => Some(v@),
        None => None,
    }
}

/// `o` holds a signature that verifies on `msg` under `pk`.
pub open spec fn sig_accepts(o: Option<Vec<u8>>, pk: Seq<u8>, msg: Seq<u8>) -> bool {
    match o {
        Some(v) => ed25519_accepts(pk, msg, v@),
        None => false,
    }
}

fn copy_sig(o: &Option<Vec<u8>>) -> (r: Option<Vec<u8>>)
    ensures
        sig_view(r) == sig_view(*o),
{
    match o {
        Some(v) => {
            let c = v.clone();
            proof {
                assert(c@ =~= v@);
            }
            Some(c)
        },
        None => None,
    }
}

fn check_sig(o: &Option<Vec<u8>>, pk: &Vec<u8>, msg: &Vec<u8>) -> (r: bool)
    ensures
        r == sig_accepts(*o, pk@, msg@),
{
    match o {
        Some(v) => verify_signature(pk, msg, v),
        None => false,
    }
}

/// One share value with the signatures gathered on it: the dealer's, then
/// those of the lower- and the higher-indexed receiver of its pair.
#[derive(Debug)]
pub struct Subshare {
    pub value: Fe,
    pub dealer_signature: Option<Vec<u8>>,
    pub signature_lower: Option<Vec<u8>>,
    pub signature_higher: Option<Vec<u8>>,
}

/// The bytes that every signature on a share value signs.
pub open spec fn message_of(v: Fe) -> Seq<u8> {
    le_bytes(v.val())
}

/// All three signatures are present and each verifies on the value under
/// its signer's key.
pub open spec fn chain_verifies(s: Subshare, dealer_pk: Seq<u8>, lower_pk: Seq<u8>, higher_pk: Seq<u8>) -> bool {
    &&& sig_accepts(s.dealer_signature, dealer_pk, message_of(s.value))
    &&& sig_accepts(s.signature_lower, lower_pk, message_of(s.value))
    &&& sig_accepts(s.signature_higher, higher_pk, message_of(s.value))
}

impl Subshare {
    /// A copy that keeps the value and every signature.
    pub fn copy(&self) -> (r: Subshare)
        ensures
            r.value == self.value,
            sig_view(r.dealer_signature) == sig_view(self.dealer_signature),
            sig_view(r.signature_lower) == sig_view(self.signature_lower),
            sig_view(r.signature_higher) == sig_view(self.signature_higher),
    {
        Subshare {
            value: self.value,
            dealer_signature: copy_sig(&self.dealer_signature),
            signature_lower: copy_sig(&self.signature_lower),
            signature_higher: copy_sig(&self.signature_higher),
        }
    }

    /// The same subshare with the dealer's signature set to `sig`.
    pub fn with_dealer_signature(self, sig: Vec<u8>) -> (r: Subshare)
        ensures
            r.value == self.value,
            sig_view(r.dealer_signature) == Some(sig@),
            sig_view(r.signature_lower) == sig_view(self.signature_lower),
            sig_view(r.signature_higher) == sig_view(self.signature_higher),
    {
        Subshare { dealer_signature: Some(sig), ..self }
    }

    /// The same subshare with the lower-indexed receiver's signature set to `sig`.
    pub fn with_signature_lower(self, sig: Vec<u8>) -> (r: Subshare)
        ensures
            r.value == self.value,
            sig_view(r.dealer_signature) == sig_view(self.dealer_signature),
            sig_view(r.signature_lower) == Some(sig@),
            sig_view(r.signature_higher) == sig_view(self.signature_higher),
    {
        Subshare { signature_lower: Some(sig), ..self }
    }

    /// The same subshare with the higher-indexed receiver's signature set to `sig`.
    pub fn with_signature_higher(self, sig: Vec<u8>) -> (r: Subshare)
        ensures
            r.value == self.value,
            sig_view(r.dealer_signature) == sig_view(self.dealer_signature),
            sig_view(r.signature_lower) == sig_view(self.signature_lower),
            sig_view(r.signature_higher) == Some(sig@),
    {
        Subshare { signature_higher: Some(sig), ..self }
    }

    /// Whether the subshare may be used for reconstruction: all three
    /// signatures are present and verify on its value.
    pub fn verify_chain(&self, dealer_pk: &Vec<u8>, lower_pk: &Vec<u8>, higher_pk: &Vec<u8>) -> (r: bool)
        requires
            self.value.wf(),
        ensures
            r == chain_verifies(*self, dealer_pk@, lower_pk@, higher_pk@),
    {
        let msg = fe_to_bytes(&self.value);
        check_sig(&self.dealer_signature, dealer_pk, &msg) && check_sig(
            &self.signature_lower,
            lower_pk,
            &msg,
        ) && check_sig(&self.signature_higher, higher_pk, &msg)
    }
}

/// The kinds of misbehaviour that a party can detect.
#[derive(Clone, Copy, Debug, PartialEq, Eq, Structural)]
pub enum FaultKind {
    /// A signature does not verify against its claimed signer and value.
    SignatureMismatch,
    /// Two messages disagree on the value of the same pair.
    ValueInconsistency,
    /// Interpolated shares do not lie on a polynomial of degree at most `t`.
    DegreeViolation,
    /// Too few verified points or rows to reconstruct.
    InsufficientQuorum,
}

/// A detected fault and the index of the party it points at (0 for the dealer).
#[derive(Clone, Copy, Debug, PartialEq, Eq, Structural)]
pub struct Fault {
    pub kind: FaultKind,
    pub party: u64,
}


/// Row `i` and column `j` of `table` hold `poly(i + 1, j + 1)`, signed by
/// the dealer alone with the key whose public bytes are `pk`.
pub open spec fn table_matches(table: Seq<Vec<Subshare>>, poly: SymBVPoly, n: nat, pk: Seq<u8>) -> bool {
    &&& table.len() == n
    &&& forall|i: int|
        0 <= i < n ==> {
            let row = #[trigger] table[i];
            &&& row.len() == n
            &&& forall|j: int|
                0 <= j < n ==> {
                    let s = #[trigger] row@[j];
                    &&& s.value.wf()
                    &&& s.value.val() == poly.value_at(i + 1, j + 1)
                    &&& sig_accepts(s.dealer_signature, pk, message_of(s.value))
                    &&& s.signature_lower is None
                    &&& s.signature_higher is None
                }
        }
}

/// The seed of the generator from which the dealer draws its polynomial.
pub const DEALER_SEED: u64 = 6;

/// The coefficient of `x^a y^b` (`b <= a`) of the dealer's polynomial of
/// degree `t`: the secret at `(0, 0)`, elsewhere draw number `tri(a) + b`
/// of the seeded generator.
pub open spec fn dealt_coeff(t: u64, secret: int, a: nat, b: nat) -> int {
    if a == 0 && b == 0 {
        secret
    } else {
        seeded_draws(DEALER_SEED, tri((t + 1) as nat))[tri(a) + b as int]
    }
}

/// The party that holds the secret and hands out signed shares of it.
pub struct Dealer {
    pub pp: PubParams,
    pub secret: Fe,
    pub keypair: Option<SigningKey>,
}

impl Dealer {
    pub fn new(pp: PubParams, secret: Fe) -> (r: Dealer)
        ensures
            r.pp == pp,
            r.secret == secret,
            r.keypair is None,
    {
        Dealer { pp, secret, keypair: None }
    }

    /// Evaluates `poly` at every pair of receiver indices and signs each
    /// value's encoding with a fresh key; returns the grid and the public key.
    pub fn share_polynomial(&mut self, poly: &SymBVPoly) -> (r: (Vec<Vec<Subshare>>, Vec<u8>))
        requires
            old(self).pp.wf(),
            poly.wf(),
        ensures
            final(self).pp == old(self).pp,
            final(self).secret == old(self).secret,
            final(self).keypair matches Some(k) && k.public() == r.1@,
            table_matches(r.0@, *poly, old(self).pp.n as nat, r.1@),
            r.1@.len() == 32,
    {
        let key = generate_signing_key();
        let pk = key.public_key_bytes();
        let n = self.pp.n;
        let mut shares: Vec<Vec<Subshare>> = Vec::new();
        let mut i: u64 = 1;
        while i <= n
            invariant
                self.pp.wf(),
                n == self.pp.n,
                poly.wf(),
                pk@ == key.public(),
                1 <= i <= n + 1,
                shares.len() == i - 1,
                forall|a: int|
                    0 <= a < i - 1 ==> {
                        let row = #[trigger] shares@[a];
                        &&& row.len() == n
                        &&& forall|j: int|
                            0 <= j < n ==> {
                                let s = #[trigger] row@[j];
                                &&& s.value.wf()
                                &&& s.value.val() == poly.value_at(a + 1, j + 1)
                                &&& sig_accepts(s.dealer_signature, pk@, message_of(s.value))
                                &&& s.signature_lower is None
                                &&& s.signature_higher is None
                            }
                    },
            decreases n + 1 - i,
        {
            let mut row: Vec<Subshare> = Vec::new();
            let mut j: u64 = 1;
            while j <= n
                invariant
                    self.pp.wf(),
                    n == self.pp.n,
                    poly.wf(),
                    pk@ == key.public(),
                    1 <= i <= n,
                    1 <= j <= n + 1,
                    row.len() == j - 1,
                    forall|b: int|
                        0 <= b < j - 1 ==> {
                            let s = #[trigger] row@[b];
                            &&& s.value.wf()
                            &&& s.value.val() == poly.value_at(i as int, b + 1)
                            &&& sig_accepts(s.dealer_signature, pk@, message_of(s.value))
                            &&& s.signature_lower is None
                            &&& s.signature_higher is None
                        },
                decreases n + 1 - j,
            {
                let value = poly.eval(Fe::from_u64(i), Fe::from_u64(j));
                let msg = fe_to_bytes(&value);
                let sig = sign_message(&key, &msg);
                row.push(
                    Subshare {
                        value,
                        dealer_signature: Some(sig),
                        signature_lower: None,
                        signature_higher: None,
                    },
                );
                j = j + 1;
            }
            shares.push(row);
            i = i + 1;
        }
        self.keypair = Some(key);
        (shares, pk)
    }

    /// Builds the polynomial of degree `t` whose constant term is the secret
    /// and whose other coefficients are drawn from the generator seeded with
    /// `DEALER_SEED`, and shares it as `share_polynomial` does.
    pub fn share(&mut self) -> (r: (Vec<Vec<Subshare>>, Vec<u8>))
        requires
            old(self).pp.wf(),
            old(self).secret.wf(),
        ensures
            final(self).pp == old(self).pp,
            final(self).secret == old(self).secret,
            final(self).keypair matches Some(k) && k.public() == r.1@,
            exists|p: SymBVPoly|
                p.wf() && p.degree == old(self).pp.t && (forall|a: nat, b: nat|
                    b <= a <= p.degree ==> #[trigger] p.coeff(a, b) == dealt_coeff(
                        old(self).pp.t,
                        old(self).secret.val(),
                        a,
                        b,
                    )) && #[trigger] table_matches(r.0@, p, old(self).pp.n as nat, r.1@),
            r.1@.len() == 32,
    {
        let t = self.pp.t;
        let count = triangle(t + 1);
        let draws = seeded_field_elements(DEALER_SEED, count);
        let mut poly = SymBVPoly::from_draws(t, &draws);
        let ghost drawn = poly;
        poly.set_constant(self.secret);
        proof {
            assert forall|a: nat, b: nat| b <= a <= poly.degree implies #[trigger] poly.coeff(a, b)
                == dealt_coeff(t, self.secret.val(), a, b) by {
                if a > 0 || b > 0 {
                    assert(poly.coeff(a, b) == drawn.coeff(a, b));
                    lemma_tri_monotone((a + 1) as nat, (t + 1) as nat);
                    assert(tri(a) + b < tri((a + 1) as nat));
                }
            }
        }
        self.share_polynomial(&poly)
    }
}

/// The faults that a receiver records for the dealer's signatures on the
/// first `k` values of its row, in column order.
pub open spec fn dealer_sig_faults(row: Seq<Subshare>, dealer_pk: Seq<u8>, k: nat) -> Seq<Fault>
    decreases k,
{
    if k == 0 {
        seq![]
    } else {
        let s = row[k - 1];
        let earlier = dealer_sig_faults(row, dealer_pk, (k - 1) as nat);
        if sig_accepts(s.dealer_signature, dealer_pk, message_of(s.value)) {
            earlier
        } else {
            earlier.push(Fault { kind: FaultKind::SignatureMismatch, party: 0 })
        }
    }
}

/// The values of `row` lie on one polynomial of degree at most `t`: column
/// `k + 1` holds its value at `k + 1`.
pub open spec fn row_on_low_degree(row: Seq<Subshare>, t: u64) -> bool {
    exists|p: Poly|
        p.wf() && p.degree <= t && forall|k: int|
            0 <= k < row.len() ==> #[trigger] p.value_at(k + 1) == row[k].value.val()
}

/// All values of a row are canonical field elements.
pub open spec fn row_values_wf(row: Seq<Subshare>) -> bool {
    forall|k: int| 0 <= k < row.len() ==> (#[trigger] row[k]).value.wf()
}

/// All values present in a row of optional subshares are canonical.
pub open spec fn opt_row_values_wf(row: Seq<Option<Subshare>>) -> bool {
    forall|k: int| 0 <= k < row.len() ==> (#[trigger] row[k] matches Some(s) ==> s.value.wf())
}

/// `o` is `s` with the lower-indexed receiver's signature, made with the key
/// whose public bytes are `pk`, added.
pub open spec fn lower_signed_copy(o: Option<Subshare>, s: Subshare, pk: Seq<u8>) -> bool {
    match o {
        Some(c) => {
            &&& c.value == s.value
            &&& sig_view(c.dealer_signature) == sig_view(s.dealer_signature)
            &&& sig_accepts(c.signature_lower, pk, message_of(c.value))
            &&& c.signature_higher is None
        },
        None => false,
    }
}

/// One of the `n` receivers, with index `id` from 1 to `n`.
pub struct Receiver {
    pub id: u64,
    pub pp: PubParams,
    pub keypair: Option<SigningKey>,
    /// The row that the dealer sent: column `k` at position `k - 1`.
    pub share: Vec<Subshare>,
    /// The faults detected so far, oldest first.
    pub faults: Vec<Fault>,
}

impl Receiver {
    pub fn new(id: u64, pp: PubParams) -> (r: Receiver)
        ensures
            r.id == id,
            r.pp == pp,
            r.keypair is None,
            r.share@.len() == 0,
            r.faults@.len() == 0,
    {
        Receiver { id, pp, keypair: None, share: Vec::new(), faults: Vec::new() }
    }

    /// Ready to take subshares from its peers.
    pub open spec fn ready(&self) -> bool {
        &&& self.pp.wf()
        &&& 1 <= self.id <= self.pp.n
        &&& self.keypair is Some
        &&& self.share.len() == self.pp.n
        &&& row_values_wf(self.share@)
    }

    /// The bytes of this receiver's public key, once it has one.
    pub open spec fn public_key(&self) -> Seq<u8> {
        match self.keypair {
            Some(k) => k.public(),
            None => seq![],
        }
    }

    fn sign_value(&self, v: &Fe) -> (r: Vec<u8>)
        requires
            v.wf(),
        ensures
            self.keypair is Some ==> ed25519_accepts(self.public_key(), message_of(*v), r@),
    {
        let msg = fe_to_bytes(v);
        match &self.keypair {
            Some(kp) => sign_message(kp, &msg),
            None => Vec::new(),
        }
    }

    /// Checks the dealer's signature on every value of its row and that the
    /// row lies on a polynomial of degree at most `t`, recording a fault for
    /// each failure; keeps the row, and returns its own signature on each
    /// value of a column `k >= id` (at position `k - 1`) together with its
    /// public key.
    pub fn receive_from_dealer(&mut self, dealer_pk: &Vec<u8>, share: &Vec<Subshare>) -> (r: (
        Vec<Option<Subshare>>,
        Vec<u8>,
    ))
        requires
            old(self).pp.wf(),
            1 <= old(self).id <= old(self).pp.n,
            share.len() == old(self).pp.n,
            row_values_wf(share@),
        ensures
            final(self).id == old(self).id,
            final(self).pp == old(self).pp,
            final(self).ready(),
            final(self).public_key() == r.1@,
            forall|k: int|
                0 <= k < share.len() ==> (#[trigger] final(self).share@[k]).value == share@[k].value
                    && sig_view(final(self).share@[k].dealer_signature) == sig_view(
                    share@[k].dealer_signature,
                ) && sig_view(final(self).share@[k].signature_lower) == sig_view(
                    share@[k].signature_lower,
                ) && sig_view(final(self).share@[k].signature_higher) == sig_view(
                    share@[k].signature_higher,
                ),
            ({
                let base = old(self).faults@ + dealer_sig_faults(share@, dealer_pk@, share.len() as nat);
                final(self).faults@ == if row_on_low_degree(share@, old(self).pp.t) {
                    base
                } else {
                    base.push(Fault { kind: FaultKind::DegreeViolation, party: 0 })
                }
            }),
            r.0.len() == share.len(),
            opt_row_values_wf(r.0@),
            forall|k: int|
                0 <= k < share.len() ==> {
                    let o = #[trigger] r.0@[k];
                    &&& (k + 1 < old(self).id ==> o is None)
                    &&& (k + 1 >= old(self).id ==> lower_signed_copy(o, share@[k], r.1@))
                },
            r.1@.len() == 32,
    {
        let n = self.pp.n;
        let t = self.pp.t;
        self.keypair = Some(generate_signing_key());
        let mut xs: Vec<u64> = Vec::new();
        let mut ys: Vec<Fe> = Vec::new();
        let mut kept: Vec<Subshare> = Vec::new();
        let mut k: u64 = 0;
        while k < n
            invariant
                self.pp.wf(),
                n == self.pp.n,
                share.len() == n,
                row_values_wf(share@),
                k <= n,
                xs.len() == k,
                ys.len() == k,
                kept.len() == k,
                all_wf(ys@),
                forall|a: int| 0 <= a < k ==> #[trigger] xs@[a] == a + 1,
                forall|a: int| 0 <= a < k ==> #[trigger] ys@[a] == share@[a].value,
                forall|a: int|
                    0 <= a < k ==> (#[trigger] kept@[a]).value == share@[a].value && sig_view(
                        kept@[a].dealer_signature,
                    ) == sig_view(share@[a].dealer_signature) && sig_view(kept@[a].signature_lower)
                        == sig_view(share@[a].signature_lower) && sig_view(
                        kept@[a].signature_higher,
                    ) == sig_view(share@[a].signature_higher),
                self.faults@ == old(self).faults@ + dealer_sig_faults(share@, dealer_pk@, k as nat),
                self.id == old(self).id,
                self.pp == old(self).pp,
                self.keypair is Some,
                self.public_key().len() == 32,
            decreases n - k,
        {
            let s = &share[k as usize];
            let msg = fe_to_bytes(&s.value);
            if !check_sig(&s.dealer_signature, dealer_pk, &msg) {
                self.faults.push(Fault { kind: FaultKind::SignatureMismatch, party: 0 });
            }
            xs.push(k + 1);
            ys.push(s.value);
            kept.push(s.copy());
            k = k + 1;
        }
        assert(!has_duplicate(xs@, n as int)) by {
            assert forall|a: int, b: int| 0 <= a < b < n implies xs@[a] != xs@[b] by {
                assert(xs@[a] == a + 1 && xs@[b] == b + 1);
            }
        }
        match Poly::evals_to_coeffs(&xs, &ys, n) {
            Ok(unipoly) => {
                if unipoly.degree > t {
                    proof {
                        if row_on_low_degree(share@, t) {
                            let q = choose|q: Poly|
                                q.wf() && q.degree <= t && forall|k: int|
                                    0 <= k < share@.len() ==> #[trigger] q.value_at(k + 1)
                                        == share@[k].value.val();
                            if q.degree < n {
                                assert forall|k: int| 0 <= k < n implies #[trigger] unipoly.value_at(
                                    points(xs@)[k],
                                ) == q.value_at(points(xs@)[k]) by {
                                    assert(xs@[k] == k + 1);
                                    assert(ys@[k] == share@[k].value);
                                    assert(unipoly.value_at(xs@[k] as int) == ys@[k].val());
                                    assert(q.value_at(k + 1) == share@[k].value.val());
                                }
                                lemma_interpolant_unique(unipoly, q, points(xs@), n as nat);
                            }
                        }
                    }
                    self.faults.push(Fault { kind: FaultKind::DegreeViolation, party: 0 });
                } else {
                    proof {
                        assert forall|k: int| 0 <= k < share.len() implies #[trigger] unipoly.value_at(
                            k + 1,
                        ) == share@[k].value.val() by {
                            assert(xs@[k] == k + 1);
                            assert(ys@[k] == share@[k].value);
                            assert(unipoly.value_at(xs@[k] as int) == ys@[k].val());
                        }
                        assert(row_on_low_degree(share@, t));
                    }
                }
            },
            Err(_) => {
                self.faults.push(Fault { kind: FaultKind::DegreeViolation, party: 0 });
            },
        }
        let mut signed: Vec<Option<Subshare>> = Vec::new();
        let mut k: u64 = 0;
        while k < n
            invariant
                self.pp.wf(),
                n == self.pp.n,
                share.len() == n,
                row_values_wf(share@),
                1 <= self.id <= n,
                self.keypair is Some,
                self.public_key().len() == 32,
                k <= n,
                signed.len() == k,
                opt_row_values_wf(signed@),
                forall|a: int|
                    0 <= a < k ==> {
                        let o = #[trigger] signed@[a];
                        &&& (a + 1 < self.id ==> o is None)
                        &&& (a + 1 >= self.id ==> lower_signed_copy(o, share@[a], self.public_key()))
                    },
            decreases n - k,
        {
            if k + 1 < self.id {
                signed.push(None);
            } else {
                let s = &share[k as usize];
                let sig = self.sign_value(&s.value);
                let base = Subshare {
                    value: s.value,
                    dealer_signature: copy_sig(&s.dealer_signature),
                    signature_lower: None,
                    signature_higher: None,
                };
                signed.push(Some(base.with_signature_lower(sig)));
            }
            k = k + 1;
        }
        self.share = kept;
        let pk = match &self.keypair {
            Some(k) => k.public_key_bytes(),
            None => Vec::new(),
        };
        (signed, pk)
    }

    /// Takes the subshare for the pair `(from, id)` that receiver `from`
    /// signed. Happy when the dealer's and the peer's signatures verify and
    /// the value matches the one in its own row; otherwise records a fault
    /// against `from`. Either way returns the subshare with its own
    /// signature added.
    pub fn receive_from_party(&mut self, from: u64, share: &Subshare, dealer_pk: &Vec<u8>, pk_i: &Vec<u8>) -> (r: (bool, Subshare))
        requires
            old(self).ready(),
            1 <= from <= old(self).pp.n,
            share.value.wf(),
        ensures
            final(self).id == old(self).id,
            final(self).pp == old(self).pp,
            final(self).keypair == old(self).keypair,
            final(self).share == old(self).share,
            final(self).ready(),
            ({
                let msg = message_of(share.value);
                let sigs_ok = sig_accepts(share.dealer_signature, dealer_pk@, msg) && sig_accepts(
                    share.signature_lower,
                    pk_i@,
                    msg,
                );
                let same = old(self).share@[from - 1].value.val() == share.value.val();
                &&& r.0 == (sigs_ok && same)
                &&& !sigs_ok ==> final(self).faults@ == old(self).faults@.push(
                    Fault { kind: FaultKind::SignatureMismatch, party: from },
                )
                &&& sigs_ok && !same ==> final(self).faults@ == old(self).faults@.push(
                    Fault { kind: FaultKind::ValueInconsistency, party: from },
                )
                &&& r.0 ==> final(self).faults@ == old(self).faults@
            }),
            r.1.value == share.value,
            sig_view(r.1.dealer_signature) == sig_view(share.dealer_signature),
            sig_view(r.1.signature_lower) == sig_view(share.signature_lower),
            sig_accepts(r.1.signature_higher, old(self).public_key(), message_of(share.value)),
    {
        let msg = fe_to_bytes(&share.value);
        let mut happy = true;
        if !check_sig(&share.dealer_signature, dealer_pk, &msg) || !check_sig(
            &share.signature_lower,
            pk_i,
            &msg,
        ) {
            happy = false;
            self.faults.push(Fault { kind: FaultKind::SignatureMismatch, party: from });
        } else if !self.share[(from - 1) as usize].value.same(&share.value) {
            happy = false;
            self.faults.push(Fault { kind: FaultKind::ValueInconsistency, party: from });
        }
        let sig = self.sign_value(&share.value);
        (happy, share.copy().with_signature_higher(sig))
    }
}


/// The faults a reconstructor records for the first `k` positions of the
/// row of receiver `from`: one for each subshare present whose chain does
/// not verify.
pub open spec fn dropped_faults(row: Seq<Option<Subshare>>, pki: Seq<Vec<u8>>, from: u64, k: nat) -> Seq<Fault>
    decreases k,
{
    if k == 0 {
        seq![]
    } else {
        let j = k - 1;
        let earlier = dropped_faults(row, pki, from, j as nat);
        match row[j] {
            Some(s) => if j + 1 <= from && chain_verifies(s, pki[0]@, pki[j + 1]@, pki[from as int]@) {
                earlier
            } else {
                earlier.push(Fault { kind: FaultKind::SignatureMismatch, party: from })
            },
            None => earlier,
        }
    }
}

/// The aggregation role between the receivers and the client.
pub struct Reconstructor {
    pub pp: PubParams,
    /// The faults detected so far, oldest first.
    pub faults: Vec<Fault>,
}

impl Reconstructor {
    pub fn new(pp: PubParams) -> (r: Reconstructor)
        ensures
            r.pp == pp,
            r.faults@.len() == 0,
    {
        Reconstructor { pp, faults: Vec::new() }
    }

    /// Takes the triply-signed row of receiver `from` (the pair `(from, j)` at
    /// position `j - 1`, `j <= from`) and keeps exactly the subshares whose
    /// three signatures verify: the dealer's, receiver `j`'s and receiver
    /// `from`'s. Every other position comes back empty, and each subshare
    /// dropped is recorded as a signature fault against `from`.
    pub fn receive_from_party(&mut self, from: u64, triply_signed_shares: &Vec<Option<Subshare>>, pki: &Vec<Vec<u8>>) -> (r: Vec<Option<Subshare>>)
        requires
            1 <= from < pki.len(),
            triply_signed_shares.len() < pki.len(),
            opt_row_values_wf(triply_signed_shares@),
        ensures
            final(self).pp == old(self).pp,
            final(self).faults@ == old(self).faults@ + dropped_faults(
                triply_signed_shares@,
                pki@,
                from,
                triply_signed_shares.len() as nat,
            ),
            r.len() == triply_signed_shares.len(),
            opt_row_values_wf(r@),
            forall|j: int|
                0 <= j < r.len() ==> match (#[trigger] r@[j]) {
                    Some(c) => triply_signed_shares@[j] matches Some(s) && j + 1 <= from
                        && c.value == s.value && sig_view(c.dealer_signature) == sig_view(
                        s.dealer_signature,
                    ) && sig_view(c.signature_lower) == sig_view(s.signature_lower) && sig_view(
                        c.signature_higher,
                    ) == sig_view(s.signature_higher) && chain_verifies(
                        s,
                        pki@[0]@,
                        pki@[j + 1]@,
                        pki@[from as int]@,
                    ),
                    None => !(triply_signed_shares@[j] matches Some(s) && j + 1 <= from
                        && chain_verifies(s, pki@[0]@, pki@[j + 1]@, pki@[from as int]@)),
                },
    {
        let mut verified: Vec<Option<Subshare>> = Vec::new();
        let len = triply_signed_shares.len();
        let mut j: usize = 0;
        while j < len
            invariant
                len == triply_signed_shares.len(),
                1 <= from < pki.len(),
                len < pki.len(),
                opt_row_values_wf(triply_signed_shares@),
                j <= len,
                verified.len() == j,
                self.pp == old(self).pp,
                self.faults@ == old(self).faults@ + dropped_faults(
                    triply_signed_shares@,
                    pki@,
                    from,
                    j as nat,
                ),
                opt_row_values_wf(verified@),
                forall|a: int|
                    0 <= a < j ==> match (#[trigger] verified@[a]) {
                        Some(c) => triply_signed_shares@[a] matches Some(s) && a + 1 <= from
                            && c.value == s.value && sig_view(c.dealer_signature) == sig_view(
                            s.dealer_signature,
                        ) && sig_view(c.signature_lower) == sig_view(s.signature_lower)
                            && sig_view(c.signature_higher) == sig_view(s.signature_higher)
                            && chain_verifies(s, pki@[0]@, pki@[a + 1]@, pki@[from as int]@),
                        None => !(triply_signed_shares@[a] matches Some(s) && a + 1 <= from
                            && chain_verifies(s, pki@[0]@, pki@[a + 1]@, pki@[from as int]@)),
                    },
            decreases len - j,
        {
            let entry = match &triply_signed_shares[j] {
                Some(s) => {
                    if (j as u64) < from && s.verify_chain(&pki[0], &pki[j + 1], &pki[from as usize]) {
                        Some(s.copy())
                    } else {
                        self.faults.push(Fault { kind: FaultKind::SignatureMismatch, party: from });
                        None
                    }
                },
                None => None,
            };
            verified.push(entry);
            j = j + 1;
        }
        verified
    }
}

/// The subshare for the unordered pair `{i, k}` of 1-based receiver indices,
/// read in the canonical orientation: row `max(i, k)`, column `min(i, k)`.
pub open spec fn pair_entry(rows: Seq<Vec<Option<Subshare>>>, i: int, k: int) -> Option<Subshare> {
    let hi = if i >= k { i } else { k };
    let lo = if i >= k { k } else { i };
    rows[hi - 1]@[lo - 1]
}

/// The subshare for `{i, k}` is present and its whole signature chain verifies.
pub open spec fn point_verifies(rows: Seq<Vec<Option<Subshare>>>, pki: Seq<Vec<u8>>, i: int, k: int) -> bool {
    let hi = if i >= k { i } else { k };
    let lo = if i >= k { k } else { i };
    match pair_entry(rows, i, k) {
        Some(s) => chain_verifies(s, pki[0]@, pki[lo]@, pki[hi]@),
        None => false,
    }
}

/// In increasing order, the indices `k` in `1 ..= m` that satisfy `pred`.
pub open spec fn indices_where(pred: spec_fn(int) -> bool, m: nat) -> Seq<u64>
    decreases m,
{
    if m == 0 {
        seq![]
    } else {
        let earlier = indices_where(pred, (m - 1) as nat);
        if pred(m as int) {
            earlier.push(m as u64)
        } else {
            earlier
        }
    }
}

/// Key `k` gives a verified point on row `i`.
pub open spec fn verifies_on_row(rows: Seq<Vec<Option<Subshare>>>, pki: Seq<Vec<u8>>, i: int) -> spec_fn(int) -> bool {
    |k: int| point_verifies(rows, pki, i, k)
}

/// In increasing order, the keys `k` in `1 ..= m` that give a verified
/// point on row `i`.
pub open spec fn verified_keys(rows: Seq<Vec<Option<Subshare>>>, pki: Seq<Vec<u8>>, i: int, m: nat) -> Seq<u64> {
    indices_where(verifies_on_row(rows, pki, i), m)
}

/// The value of the subshare for `{i, k}`.
pub open spec fn pair_value(rows: Seq<Vec<Option<Subshare>>>, i: int, k: int) -> int {
    match pair_entry(rows, i, k) {
        Some(s) => s.value.val(),
        None => 0,
    }
}

/// The polynomial with integer coefficients `c` takes the value `ys[a]` at
/// `xs[a]` for every `a < m`.
pub open spec fn passes_through(c: Seq<int>, xs: Seq<int>, ys: Seq<int>, m: int) -> bool {
    forall|a: int| 0 <= a < m ==> #[trigger] int_poly_value(c, xs[a]) == ys[a]
}

/// Some polynomial of degree at most `t` passes through the first `m` points.
pub open spec fn low_degree_fit(xs: Seq<int>, ys: Seq<int>, m: int, t: u64) -> bool {
    exists|c: Seq<int>| c.len() == t + 1 && #[trigger] passes_through(c, xs, ys, m)
}

/// The value at 0 of a polynomial of degree at most `t` through the first
/// `m` points (there is at most one such value when the points are distinct).
pub open spec fn fit_at_zero(xs: Seq<int>, ys: Seq<int>, m: int, t: u64) -> int {
    int_poly_value(choose|c: Seq<int>| c.len() == t + 1 && #[trigger] passes_through(c, xs, ys, m), 0)
}

/// The first `2t + 1` verified keys of row `i`, as integers.
pub open spec fn row_xs(rows: Seq<Vec<Option<Subshare>>>, pki: Seq<Vec<u8>>, t: u64, n: nat, i: int) -> Seq<int> {
    verified_keys(rows, pki, i, n).take(2 * t + 1).map_values(|k: u64| k as int)
}

/// The values of the subshares at the first `2t + 1` verified keys of row `i`.
pub open spec fn row_ys(rows: Seq<Vec<Option<Subshare>>>, pki: Seq<Vec<u8>>, t: u64, n: nat, i: int) -> Seq<int> {
    verified_keys(rows, pki, i, n).take(2 * t + 1).map_values(|k: u64| pair_value(rows, i, k as int))
}

/// Row `i` has `2t + 1` verified points, and they lie on a polynomial of
/// degree at most `t`.
pub open spec fn row_usable(rows: Seq<Vec<Option<Subshare>>>, pki: Seq<Vec<u8>>, t: u64, n: nat, i: int) -> bool {
    &&& verified_keys(rows, pki, i, n).len() >= 2 * t + 1
    &&& low_degree_fit(row_xs(rows, pki, t, n, i), row_ys(rows, pki, t, n, i), 2 * t + 1, t)
}

/// Row `i`'s share of the secret: its low-degree fit evaluated at 0.
pub open spec fn row_secret(rows: Seq<Vec<Option<Subshare>>>, pki: Seq<Vec<u8>>, t: u64, n: nat, i: int) -> int {
    fit_at_zero(row_xs(rows, pki, t, n, i), row_ys(rows, pki, t, n, i), 2 * t + 1, t)
}

/// Row `i` is usable.
pub open spec fn usable_row(rows: Seq<Vec<Option<Subshare>>>, pki: Seq<Vec<u8>>, t: u64, n: nat) -> spec_fn(int) -> bool {
    |i: int| row_usable(rows, pki, t, n, i)
}

/// In increasing order, the usable rows among `1 ..= m`.
pub open spec fn usable_rows(rows: Seq<Vec<Option<Subshare>>>, pki: Seq<Vec<u8>>, t: u64, n: nat, m: nat) -> Seq<u64> {
    indices_where(usable_row(rows, pki, t, n), m)
}

/// The secret recovered from the first `t + 1` usable rows: the value at 0
/// of the polynomial of degree at most `t` through their row shares.
pub open spec fn recovered_secret(rows: Seq<Vec<Option<Subshare>>>, pki: Seq<Vec<u8>>, t: u64, n: nat) -> int {
    let u = usable_rows(rows, pki, t, n, n).take(t + 1);
    fit_at_zero(
        u.map_values(|i: u64| i as int),
        u.map_values(|i: u64| row_secret(rows, pki, t, n, i as int)),
        t + 1,
        t,
    )
}

/// A strictly increasing sequence of indices in `1 ..= m`.
pub open spec fn increasing_within(s: Seq<u64>, m: nat) -> bool {
    &&& forall|a: int, b: int| 0 <= a < b < s.len() ==> s[a] < s[b]
    &&& forall|a: int| 0 <= a < s.len() ==> 1 <= #[trigger] s[a] <= m
}

proof fn lemma_indices_increasing(pred: spec_fn(int) -> bool, m: nat)
    requires
        m <= u64::MAX,
    ensures
        increasing_within(indices_where(pred, m), m),
    decreases m,
{
    if m > 0 {
        lemma_indices_increasing(pred, (m - 1) as nat);
        let prev = indices_where(pred, (m - 1) as nat);
        let cur = indices_where(pred, m);
        assert forall|a: int| 0 <= a < cur.len() implies 1 <= #[trigger] cur[a] <= m by {
            if a < prev.len() {
                assert(cur[a] == prev[a]);
            }
        }
        assert forall|a: int, b: int| 0 <= a < b < cur.len() implies cur[a] < cur[b] by {
            if b < prev.len() {
                assert(cur[a] == prev[a] && cur[b] == prev[b]);
            } else {
                assert(cur[a] == prev[a]);
                assert(prev[a] <= m - 1);
            }
        }
    }
}

proof fn lemma_indices_grow(pred: spec_fn(int) -> bool, a: nat, b: nat)
    requires
        a <= b <= u64::MAX,
    ensures
        indices_where(pred, a).len() <= indices_where(pred, b).len(),
        indices_where(pred, b).take(indices_where(pred, a).len() as int) == indices_where(pred, a),
        increasing_within(indices_where(pred, b), b),
    decreases b - a,
{
    if a < b {
        lemma_indices_grow(pred, a, (b - 1) as nat);
        let prev = indices_where(pred, (b - 1) as nat);
        let la = indices_where(pred, a).len() as int;
        assert(prev.push(b as u64).take(la) =~= prev.take(la));
    }
    lemma_indices_increasing(pred, b);
    if a == b {
        assert(indices_where(pred, b).take(indices_where(pred, b).len() as int) =~= indices_where(pred, b));
    }
}

proof fn lemma_index_satisfies(pred: spec_fn(int) -> bool, m: nat, a: int)
    requires
        m <= u64::MAX,
        0 <= a < indices_where(pred, m).len(),
    ensures
        pred(indices_where(pred, m)[a] as int),
        1 <= indices_where(pred, m)[a] <= m,
    decreases m,
{
    if m > 0 {
        let prev = indices_where(pred, (m - 1) as nat);
        let cur = indices_where(pred, m);
        if a < prev.len() {
            lemma_index_satisfies(pred, (m - 1) as nat, a);
            assert(cur[a] == prev[a]);
        } else {
            assert(pred(m as int));
            assert(cur[a] == m as u64);
        }
    }
}

proof fn lemma_indices_all(pred: spec_fn(int) -> bool, m: nat)
    requires
        m <= u64::MAX,
        forall|k: int| 1 <= k <= m ==> #[trigger] pred(k),
    ensures
        indices_where(pred, m) =~= Seq::new(m, |a: int| (a + 1) as u64),
    decreases m,
{
    if m > 0 {
        lemma_indices_all(pred, (m - 1) as nat);
        assert(pred(m as int));
    }
}

/// No two entries of a strictly increasing sequence coincide.
proof fn lemma_increasing_no_duplicate(s: Seq<u64>, m: nat)
    requires
        increasing_within(s, m),
    ensures
        !has_duplicate(s, s.len() as int),
{
}

/// The interpolant of points that some polynomial of degree at most `t`
/// passes through has degree at most `t`, and takes that polynomial's value
/// at 0.
proof fn lemma_fit_of_interpolant(p: Poly, xs: Seq<u64>, ys: Seq<int>, m: nat, t: u64)
    requires
        p.wf(),
        p.coeffs.len() == m,
        is_effective_degree(p.coeffs@, p.degree as int),
        m <= xs.len(),
        separated(points(xs), m as int),
        t < m,
        forall|a: int| 0 <= a < m ==> #[trigger] p.value_at(xs[a] as int) == ys[a],
    ensures
        low_degree_fit(points(xs), ys, m as int, t) == (p.degree <= t),
        p.degree <= t ==> p.value_at(0) == fit_at_zero(points(xs), ys, m as int, t),
{
    assert forall|a: int| 0 <= a < m implies #[trigger] points(xs)[a] == xs[a] as int by {}
    if low_degree_fit(points(xs), ys, m as int, t) {
        let c = choose|c: Seq<int>| c.len() == t + 1 && #[trigger] passes_through(c, points(xs), ys, m as int);
        assert forall|k: int| 0 <= k < m implies #[trigger] p.value_at(points(xs)[k]) == int_poly_value(
            c,
            points(xs)[k],
        ) by {
            assert(points(xs)[k] == xs[k] as int);
        }
        lemma_interpolant_matches(p, c, points(xs), m);
    }
    if p.degree <= t {
        let cp = Seq::new((t + 1) as nat, |k: int| coeff_fn(p.coeffs@)(k as nat));
        assert forall|z: int| #[trigger] int_poly_value(cp, z) == p.value_at(z) by {
            let f = coeff_fn(p.coeffs@);
            assert forall|k: nat| p.degree + 1 <= k < t + 1 implies #[trigger] f(k) == 0 by {}
            lemma_monomial_trailing_zeros(f, z, (p.degree + 1) as nat, (t + 1) as nat);
            lemma_sum_ext(
                |k: nat| int_coeffs(cp)(k) * pow(z, k),
                |k: nat| f(k) * pow(z, k),
                (t + 1) as nat,
            );
        }
        assert(passes_through(cp, points(xs), ys, m as int));
    }
}

/// A grid in which every subshare verifies and the subshare for `{i, k}`
/// holds `f(i, k)`, for a symmetric polynomial `f` of degree `t` with
/// `2t + 1 <= n`: every row is usable, and the secret recovered from it is
/// `f(0, 0)`.
pub proof fn lemma_honest_grid_recovers(rows: Seq<Vec<Option<Subshare>>>, pki: Seq<Vec<u8>>, f: SymBVPoly, t: u64, n: nat)
    requires
        f.wf(),
        f.degree == t,
        2 * t + 1 <= n < u64::MAX,
        forall|i: int, k: int|
            1 <= i <= n && 1 <= k <= n ==> #[trigger] point_verifies(rows, pki, i, k)
                && pair_value(rows, i, k) == f.value_at(i, k),
    ensures
        usable_rows(rows, pki, t, n, n).len() == n,
        ({
            let u = usable_rows(rows, pki, t, n, n).take(t + 1);
            &&& separated(u.map_values(|i: u64| i as int), t + 1)
            &&& forall|a: int|
                0 <= a < t + 1 ==> #[trigger] separated(row_xs(rows, pki, t, n, u[a] as int), 2 * t + 1)
        }) ==> recovered_secret(rows, pki, t, n) == f.coeff(0, 0) % modulus(),
{
    let m = (2 * t + 1) as int;
    assert forall|i: int| 1 <= i <= n implies #[trigger] row_usable(rows, pki, t, n, i) by {
        assert forall|k: int| 1 <= k <= n implies #[trigger] point_verifies(rows, pki, i, k) by {
            assert(point_verifies(rows, pki, i, k) && pair_value(rows, i, k) == f.value_at(i, k));
        }
        lemma_indices_all(verifies_on_row(rows, pki, i), n);
        let cs = column_coeffs(f, i);
        let xs = row_xs(rows, pki, t, n, i);
        let ys = row_ys(rows, pki, t, n, i);
        assert forall|a: int| 0 <= a < m implies #[trigger] int_poly_value(cs, xs[a]) == ys[a] by {
            assert(xs[a] == a + 1);
            assert(point_verifies(rows, pki, i, a + 1) && pair_value(rows, i, a + 1) == f.value_at(i, a + 1));
            lemma_column_poly(f, i, a + 1);
        }
        assert(passes_through(cs, xs, ys, m));
    }
    lemma_indices_all(usable_row(rows, pki, t, n), n);
    let u = usable_rows(rows, pki, t, n, n).take(t + 1);
    if separated(u.map_values(|i: u64| i as int), t + 1) && forall|a: int|
        0 <= a < t + 1 ==> #[trigger] separated(row_xs(rows, pki, t, n, u[a] as int), 2 * t + 1) {
        // each row's share of the secret is f(i, 0)
        assert forall|a: int| 0 <= a < t + 1 implies #[trigger] row_secret(rows, pki, t, n, u[a] as int)
            == f.value_at(a + 1, 0) by {
            let i = a + 1;
            assert(u[a] == i);
            assert forall|k: int| 1 <= k <= n implies #[trigger] point_verifies(rows, pki, i, k) by {
                assert(point_verifies(rows, pki, i, k) && pair_value(rows, i, k) == f.value_at(i, k));
            }
            lemma_indices_all(verifies_on_row(rows, pki, i), n);
            let cs = column_coeffs(f, i);
            let xs = row_xs(rows, pki, t, n, i);
            let ys = row_ys(rows, pki, t, n, i);
            assert(row_usable(rows, pki, t, n, i));
            let c = choose|c: Seq<int>| c.len() == t + 1 && #[trigger] passes_through(c, xs, ys, m);
            assert forall|k: int| 0 <= k < t + 1 implies #[trigger] int_poly_value(c, xs[k])
                == int_poly_value(cs, xs[k]) by {
                assert(xs[k] == k + 1);
                assert(point_verifies(rows, pki, i, k + 1) && pair_value(rows, i, k + 1) == f.value_at(i, k + 1));
                lemma_column_poly(f, i, k + 1);
            }
            assert(separated(xs, m));
            assert(separated(xs, t + 1));
            lemma_fits_agree(c, cs, xs, (t + 1) as nat);
            lemma_column_poly(f, i, 0);
        }
        let xs = u.map_values(|i: u64| i as int);
        let ys = u.map_values(|i: u64| row_secret(rows, pki, t, n, i as int));
        let c0 = column_coeffs(f, 0);
        assert forall|a: int| 0 <= a < t + 1 implies #[trigger] int_poly_value(c0, xs[a]) == ys[a] by {
            assert(xs[a] == a + 1);
            lemma_column_poly(f, 0, a + 1);
            crate::polynomials::lemma_eval_symmetric(f, 0, a + 1);
        }
        assert(passes_through(c0, xs, ys, (t + 1) as int));
        let c = choose|c: Seq<int>| c.len() == t + 1 && #[trigger] passes_through(c, xs, ys, (t + 1) as int);
        assert forall|k: int| 0 <= k < t + 1 implies #[trigger] int_poly_value(c, xs[k]) == int_poly_value(c0, xs[k]) by {}
        lemma_fits_agree(c, c0, xs, (t + 1) as nat);
        lemma_column_poly(f, 0, 0);
        let nn = (t + 1) as nat;
        crate::polynomials::lemma_monomial_at_zero(|a: nat| f.row_value(a, 0), nn);
        crate::polynomials::lemma_monomial_at_zero(f.row_fn(0), nn);
    }
}

/// Two grids that agree on which subshares verify, and on the values of
/// those that do.
pub open spec fn same_verified_points(rows1: Seq<Vec<Option<Subshare>>>, rows2: Seq<Vec<Option<Subshare>>>, pki: Seq<Vec<u8>>, n: nat) -> bool {
    forall|i: int, k: int|
        1 <= i <= n && 1 <= k <= n ==> #[trigger] point_verifies(rows1, pki, i, k) == point_verifies(
            rows2,
            pki,
            i,
            k,
        ) && (point_verifies(rows1, pki, i, k) ==> pair_value(rows1, i, k) == pair_value(rows2, i, k))
}

proof fn lemma_same_keys(rows1: Seq<Vec<Option<Subshare>>>, rows2: Seq<Vec<Option<Subshare>>>, pki: Seq<Vec<u8>>, n: nat, i: int, m: nat)
    requires
        1 <= i <= n,
        m <= n,
        same_verified_points(rows1, rows2, pki, n),
    ensures
        verified_keys(rows1, pki, i, m) == verified_keys(rows2, pki, i, m),
    decreases m,
{
    if m > 0 {
        lemma_same_keys(rows1, rows2, pki, n, i, (m - 1) as nat);
        assert(point_verifies(rows1, pki, i, m as int) == point_verifies(rows2, pki, i, m as int));
    }
}

proof fn lemma_same_rows(rows1: Seq<Vec<Option<Subshare>>>, rows2: Seq<Vec<Option<Subshare>>>, pki: Seq<Vec<u8>>, t: u64, n: nat, m: nat)
    requires
        m <= n <= u64::MAX,
        same_verified_points(rows1, rows2, pki, n),
    ensures
        usable_rows(rows1, pki, t, n, m) == usable_rows(rows2, pki, t, n, m),
        forall|i: int|
            1 <= i <= n && row_usable(rows1, pki, t, n, i) ==> #[trigger] row_secret(rows1, pki, t, n, i)
                == row_secret(rows2, pki, t, n, i),
    decreases m,
{
    assert forall|i: int| 1 <= i <= n implies (row_usable(rows1, pki, t, n, i) ==> #[trigger] row_secret(
        rows1,
        pki,
        t,
        n,
        i,
    ) == row_secret(rows2, pki, t, n, i)) && row_usable(rows1, pki, t, n, i) == row_usable(
        rows2,
        pki,
        t,
        n,
        i,
    ) by {
        lemma_same_keys(rows1, rows2, pki, n, i, n);
        if verified_keys(rows1, pki, i, n).len() >= 2 * t + 1 {
        let vk = verified_keys(rows1, pki, i, n);
        lemma_indices_increasing(verifies_on_row(rows1, pki, i), n);
        let ys1 = row_ys(rows1, pki, t, n, i);
        let ys2 = row_ys(rows2, pki, t, n, i);
        assert forall|a: int| 0 <= a < ys1.len() implies ys1[a] == ys2[a] by {
            assert(a < vk.len());
            lemma_index_satisfies(verifies_on_row(rows1, pki, i), n, a);
            let k = vk[a] as int;
            assert(point_verifies(rows1, pki, i, k) == point_verifies(rows2, pki, i, k));
        }
        assert(ys1 =~= ys2);
        }
    }
    if m > 0 {
        lemma_same_rows(rows1, rows2, pki, t, n, (m - 1) as nat);
        if row_usable(rows1, pki, t, n, m as int) {
            assert(row_secret(rows1, pki, t, n, m as int) == row_secret(rows2, pki, t, n, m as int));
        }
        assert(row_usable(rows1, pki, t, n, m as int) == row_usable(rows2, pki, t, n, m as int));
    }
}

/// Only subshares whose whole chain verifies affect the client: two grids
/// that agree on which subshares verify, and on the values of those that
/// do, have the same usable rows and recover the same secret.
pub proof fn lemma_only_verified_points_matter(rows1: Seq<Vec<Option<Subshare>>>, rows2: Seq<Vec<Option<Subshare>>>, pki: Seq<Vec<u8>>, t: u64, n: nat)
    requires
        n <= u64::MAX,
        same_verified_points(rows1, rows2, pki, n),
    ensures
        usable_rows(rows1, pki, t, n, n) == usable_rows(rows2, pki, t, n, n),
        usable_rows(rows1, pki, t, n, n).len() >= t + 1 ==> recovered_secret(rows1, pki, t, n)
            == recovered_secret(rows2, pki, t, n),
{
    lemma_same_rows(rows1, rows2, pki, t, n, n);
    if usable_rows(rows1, pki, t, n, n).len() >= t + 1 {
    let u = usable_rows(rows1, pki, t, n, n).take(t + 1);
    lemma_indices_increasing(usable_row(rows1, pki, t, n), n);
    let ys1 = u.map_values(|i: u64| row_secret(rows1, pki, t, n, i as int));
    let ys2 = u.map_values(|i: u64| row_secret(rows2, pki, t, n, i as int));
    assert forall|a: int| 0 <= a < ys1.len() implies ys1[a] == ys2[a] by {
        assert(a < usable_rows(rows1, pki, t, n, n).len());
        assert(1 <= usable_rows(rows1, pki, t, n, n)[a] <= n);
        let r = usable_rows(rows1, pki, t, n, n)[a] as int;
        lemma_index_satisfies(usable_row(rows1, pki, t, n), n, a);
        assert(row_secret(rows1, pki, t, n, r) == row_secret(rows2, pki, t, n, r));
    }
    assert(ys1 =~= ys2);
    }
}

/// The shape the client expects: `n` rows of `n` optional subshares with
/// canonical values, and the dealer's key followed by one key per receiver.
pub open spec fn grid_wf(rows: Seq<Vec<Option<Subshare>>>, pki: Seq<Vec<u8>>, n: nat) -> bool {
    &&& rows.len() == n
    &&& pki.len() == n + 1
    &&& forall|i: int| 0 <= i < n ==> (#[trigger] rows[i]).len() == n && opt_row_values_wf(rows[i]@)
}

/// The party that recovers the secret from the triply-signed subshares.
pub struct Client {
    pub pp: PubParams,
}

impl Client {
    pub fn new(pp: PubParams) -> (r: Client)
        ensures
            r.pp == pp,
    {
        Client { pp }
    }

    /// Recovers the secret. For each row `i` in increasing order it takes the
    /// first `2t + 1` keys whose subshare verifies; the row is usable when
    /// their interpolant has degree at most `t`, and then contributes that
    /// interpolant's value at 0. From the first `t + 1` usable rows the
    /// secret is the value at 0 of the interpolant of their contributions.
    /// Recoverable exactly when `t + 1` rows are usable; otherwise the value
    /// returned is zero.
    pub fn compute_secret(&self, triply_signed_shares: &Vec<Vec<Option<Subshare>>>, pki: &Vec<Vec<u8>>) -> (r: (bool, Fe))
        requires
            self.pp.wf(),
            grid_wf(triply_signed_shares@, pki@, self.pp.n as nat),
        ensures
            r.1.wf(),
            r.0 == (usable_rows(
                triply_signed_shares@,
                pki@,
                self.pp.t,
                self.pp.n as nat,
                self.pp.n as nat,
            ).len() >= self.pp.t + 1),
            r.0 ==> r.1.val() == recovered_secret(
                triply_signed_shares@,
                pki@,
                self.pp.t,
                self.pp.n as nat,
            ),
            !r.0 ==> r.1.val() == 0,
            r.0 ==> ({
                let u = usable_rows(
                    triply_signed_shares@,
                    pki@,
                    self.pp.t,
                    self.pp.n as nat,
                    self.pp.n as nat,
                ).take(self.pp.t + 1);
                &&& separated(u.map_values(|i: u64| i as int), self.pp.t + 1)
                &&& forall|a: int|
                    0 <= a < self.pp.t + 1 ==> #[trigger] separated(
                        row_xs(triply_signed_shares@, pki@, self.pp.t, self.pp.n as nat, u[a] as int),
                        2 * self.pp.t + 1,
                    )
            }),
    {
        proof {
            crate::field::lemma_modulus_large();
        }
        let n = self.pp.n;
        let t = self.pp.t;
        let ghost rows = triply_signed_shares@;
        let ghost keys = pki@;
        let ghost nn = n as nat;
        let mut row_keys: Vec<u64> = Vec::new();
        let mut row_values: Vec<Fe> = Vec::new();
        let mut n_verified_poly: u64 = 0;
        let mut i: u64 = 1;
        while i <= n
            invariant_except_break
                n_verified_poly < t + 1,
            invariant
                self.pp.wf(),
                n == self.pp.n,
                t == self.pp.t,
                nn == n,
                rows == triply_signed_shares@,
                keys == pki@,
                grid_wf(rows, keys, nn),
                1 <= i <= n + 1,
                row_keys@ == usable_rows(rows, keys, t, nn, (i - 1) as nat),
                n_verified_poly == row_keys.len(),
                n_verified_poly <= t + 1,
                row_values.len() == n_verified_poly,
                all_wf(row_values@),
                forall|a: int|
                    0 <= a < row_keys.len() ==> #[trigger] separated(
                        row_xs(rows, keys, t, nn, row_keys@[a] as int),
                        2 * t + 1,
                    ),
                forall|a: int|
                    0 <= a < row_values.len() ==> (#[trigger] row_values@[a]).val() == row_secret(
                        rows,
                        keys,
                        t,
                        nn,
                        row_keys@[a] as int,
                    ),
            ensures
                n_verified_poly >= t + 1 || i == n + 1,
            decreases n + 1 - i,
        {
            let mut keys_i: Vec<u64> = Vec::new();
            let mut values_i: Vec<Fe> = Vec::new();
            let mut shares_verified: u64 = 0;
            let mut key: u64 = 1;
            while key <= n
                invariant_except_break
                    shares_verified < 2 * t + 1,
                invariant
                    self.pp.wf(),
                    n == self.pp.n,
                    t == self.pp.t,
                    nn == n,
                    rows == triply_signed_shares@,
                    keys == pki@,
                    grid_wf(rows, keys, nn),
                    1 <= i <= n,
                    1 <= key <= n + 1,
                    keys_i@ == verified_keys(rows, keys, i as int, (key - 1) as nat),
                    shares_verified == keys_i.len(),
                    shares_verified <= 2 * t + 1,
                    values_i.len() == shares_verified,
                    all_wf(values_i@),
                    forall|a: int|
                        0 <= a < values_i.len() ==> (#[trigger] values_i@[a]).val() == pair_value(
                            rows,
                            i as int,
                            keys_i@[a] as int,
                        ),
                ensures
                    shares_verified >= 2 * t + 1 || key == n + 1,
                decreases n + 1 - key,
            {
                let (larger, smaller) = if key <= i { (i, key) } else { (key, i) };
                let ok = match &triply_signed_shares[(larger - 1) as usize][(smaller - 1) as usize] {
                    Some(share) => {
                        if share.verify_chain(&pki[0], &pki[smaller as usize], &pki[larger as usize]) {
                            keys_i.push(key);
                            values_i.push(share.value);
                            true
                        } else {
                            false
                        }
                    },
                    None => false,
                };
                assert(ok == point_verifies(rows, keys, i as int, key as int));
                if ok {
                    shares_verified = shares_verified + 1;
                }
                key = key + 1;
                if shares_verified >= 2 * t + 1 {
                    break;
                }
            }
            proof {
                lemma_indices_grow(verifies_on_row(rows, keys, i as int), (key - 1) as nat, nn);
                lemma_indices_increasing(verifies_on_row(rows, keys, i as int), (key - 1) as nat);
            }
            if shares_verified >= 2 * t + 1 {
                proof {
                    let vk = verified_keys(rows, keys, i as int, nn);
                    assert(vk.take(2 * t + 1) =~= keys_i@);
                    lemma_increasing_no_duplicate(keys_i@, (key - 1) as nat);
                    assert(row_xs(rows, keys, t, nn, i as int) =~= points(keys_i@));
                }
                match Poly::evals_to_coeffs(&keys_i, &values_i, shares_verified) {
                    Ok(unipoly) => {
                        let ghost ys = row_ys(rows, keys, t, nn, i as int);
                        proof {
                            let vk = verified_keys(rows, keys, i as int, nn);
                            assert forall|a: int| 0 <= a < 2 * t + 1 implies #[trigger] unipoly.value_at(
                                keys_i@[a] as int,
                            ) == ys[a] by {
                                assert(values_i@[a].val() == pair_value(rows, i as int, keys_i@[a] as int));
                            }
                            lemma_fit_of_interpolant(unipoly, keys_i@, ys, (2 * t + 1) as nat, t);
                        }
                        if unipoly.degree <= t {
                            let v = unipoly.eval(Fe::zero());
                            n_verified_poly = n_verified_poly + 1;
                            row_keys.push(i);
                            row_values.push(v);
                        }
                    },
                    Err(_) => {},
                }
            }
            proof {
                let prev = usable_rows(rows, keys, t, nn, (i - 1) as nat);
                assert(usable_rows(rows, keys, t, nn, i as nat) == if row_usable(rows, keys, t, nn, i as int) {
                    prev.push(i as u64)
                } else {
                    prev
                });
                if shares_verified < 2 * t + 1 {
                    assert(key == n + 1);
                    assert(!row_usable(rows, keys, t, nn, i as int));
                }
                assert(row_keys@ =~= usable_rows(rows, keys, t, nn, i as nat));
            }
            i = i + 1;
            if n_verified_poly >= t + 1 {
                break;
            }
        }
        proof {
            lemma_indices_grow(usable_row(rows, keys, t, nn), (i - 1) as nat, nn);
        }
        if n_verified_poly > t {
            let ghost u = usable_rows(rows, keys, t, nn, nn).take(t + 1);
            proof {
                assert(u =~= row_keys@);
                lemma_indices_increasing(usable_row(rows, keys, t, nn), (i - 1) as nat);
                lemma_increasing_no_duplicate(row_keys@, (i - 1) as nat);
            }
            match Poly::evals_to_coeffs(&row_keys, &row_values, n_verified_poly) {
                Ok(unipoly) => {
                    let ghost ys = u.map_values(|r: u64| row_secret(rows, keys, t, nn, r as int));
                    proof {
                        assert(points(row_keys@) =~= u.map_values(|r: u64| r as int));
                        assert forall|a: int| 0 <= a < t + 1 implies #[trigger] unipoly.value_at(
                            row_keys@[a] as int,
                        ) == ys[a] by {}
                        lemma_fit_of_interpolant(unipoly, row_keys@, ys, (t + 1) as nat, t);
                    }
                    (true, unipoly.eval(Fe::zero()))
                },
                Err(_) => (false, Fe::zero()),
            }
        } else {
            (false, Fe::zero())
        }
    }
}

/// `o` holds a copy of `v` that carries a dealer signature verifying under
/// `dealer_pk` and a lower signature verifying under `lower_pk`.
pub open spec fn signed_ok(o: Option<Subshare>, v: Fe, dealer_pk: Seq<u8>, lower_pk: Seq<u8>) -> bool {
    match o {
        Some(s) => {
            &&& s.value == v
            &&& sig_accepts(s.dealer_signature, dealer_pk, message_of(s.value))
            &&& sig_accepts(s.signature_lower, lower_pk, message_of(s.value))
        },
        None => false,
    }
}

/// `o` holds a subshare of value `v` whose whole chain verifies.
pub open spec fn triple_ok(o: Option<Subshare>, dealer_pk: Seq<u8>, lower_pk: Seq<u8>, higher_pk: Seq<u8>, v: int) -> bool {
    match o {
        Some(s) => s.value.val() == v && chain_verifies(s, dealer_pk, lower_pk, higher_pk),
        None => false,
    }
}

/// Whether a signature verifies depends only on its bytes.
proof fn lemma_sig_view_accepts(a: Option<Vec<u8>>, b: Option<Vec<u8>>, pk: Seq<u8>, msg: Seq<u8>)
    requires
        sig_view(a) == sig_view(b),
    ensures
        sig_accepts(a, pk, msg) == sig_accepts(b, pk, msg),
{
}

/// Every row of `rows` has length `n` and canonical values.
pub open spec fn rows_wf(rows: Seq<Vec<Option<Subshare>>>, n: nat) -> bool {
    forall|a: int| 0 <= a < rows.len() ==> (#[trigger] rows[a]).len() == n && opt_row_values_wf(rows[a]@)
}

fn empty_row(n: u64) -> (r: Vec<Option<Subshare>>)
    ensures
        r.len() == n,
        forall|k: int| 0 <= k < n ==> #[trigger] r@[k] is None,
{
    let mut row: Vec<Option<Subshare>> = Vec::new();
    let mut k: u64 = 0;
    while k < n
        invariant
            k <= n,
            row.len() == k,
            forall|a: int| 0 <= a < k ==> #[trigger] row@[a] is None,
        decreases n - k,
    {
        row.push(None);
        k = k + 1;
    }
    row
}

/// One run of the whole protocol.
pub struct VSS {
    pub secret: Fe,
    pub pp: PubParams,
    pub execution_leaks: bool,
}

impl VSS {
    /// Runs dealer, receivers in increasing index order, `t + 1`
    /// reconstructors and the client, and returns the client's result. With
    /// every party honest, as here, the secret is recovered whenever
    /// `n >= 2t + 1`.
    pub fn execute(&self) -> (r: (bool, Fe))
        requires
            self.pp.wf(),
            self.secret.wf(),
        ensures
            r.1.wf(),
            !r.0 ==> r.1.val() == 0,
            self.pp.n >= 2 * self.pp.t + 1 ==> r.0 && r.1 == self.secret,
    {
        let n = self.pp.n;
        let t = self.pp.t;
        let mut dealer = Dealer::new(self.pp, self.secret);
        let (shares, pk) = dealer.share();
        let ghost f = choose|p: SymBVPoly|
            p.wf() && p.degree == t && (forall|a: nat, b: nat|
                b <= a <= p.degree ==> #[trigger] p.coeff(a, b) == dealt_coeff(
                    t,
                    self.secret.val(),
                    a,
                    b,
                )) && #[trigger] table_matches(shares@, p, n as nat, pk@);
        let ghost pk0 = pk@;
        let mut pki: Vec<Vec<u8>> = Vec::new();
        pki.push(pk);
        let mut signed_rows: Vec<Vec<Option<Subshare>>> = Vec::new();
        let mut triple_rows: Vec<Vec<Option<Subshare>>> = Vec::new();
        let mut i: u64 = 1;
        while i <= n
            invariant
                self.pp.wf(),
                n == self.pp.n,
                t == self.pp.t,
                f.wf(),
                f.degree == t,
                table_matches(shares@, f, n as nat, pk0),
                1 <= i <= n + 1,
                pki.len() == i,
                pki@[0]@ == pk0,
                signed_rows.len() == i - 1,
                triple_rows.len() == i - 1,
                rows_wf(signed_rows@, n as nat),
                rows_wf(triple_rows@, n as nat),
                forall|a: int, b: int|
                    0 <= a < i - 1 && a <= b < n ==> signed_ok(
                        #[trigger] signed_rows@[a]@[b],
                        shares@[a]@[b].value,
                        pk0,
                        pki@[a + 1]@,
                    ),
                forall|a: int, b: int|
                    0 <= a < i - 1 && 0 <= b <= a ==> triple_ok(
                        #[trigger] triple_rows@[a]@[b],
                        pk0,
                        pki@[b + 1]@,
                        pki@[a + 1]@,
                        f.value_at(a + 1, b + 1),
                    ),
            decreases n + 1 - i,
        {
            let mut receiver = Receiver::new(i, self.pp);
            let (signed, pk_i) = receiver.receive_from_dealer(&pki[0], &shares[(i - 1) as usize]);
            let ghost old_pki = pki@;
            pki.push(pk_i);
            signed_rows.push(signed);
            proof {
                assert forall|a: int, b: int|
                    0 <= a < i && a <= b < n implies signed_ok(
                        #[trigger] signed_rows@[a]@[b],
                        shares@[a]@[b].value,
                        pk0,
                        pki@[a + 1]@,
                    ) by {
                    if a < i - 1 {
                        assert(pki@[a + 1] == old_pki[a + 1]);
                    } else {
                        let s = shares@[a]@[b];
                        assert(s.value.wf());
                        lemma_sig_view_accepts(
                            signed_rows@[a]@[b]->0.dealer_signature,
                            s.dealer_signature,
                            pk0,
                            message_of(s.value),
                        );
                    }
                }
            }
            let mut expanded = empty_row(n);
            let mut j: u64 = 1;
            while j <= i
                invariant
                    self.pp.wf(),
                    n == self.pp.n,
                    f.wf(),
                    f.degree == t,
                    table_matches(shares@, f, n as nat, pk0),
                    1 <= i <= n,
                    1 <= j <= i + 1,
                    pki.len() == i + 1,
                    pki@[0]@ == pk0,
                    signed_rows.len() == i,
                    rows_wf(signed_rows@, n as nat),
                    receiver.ready(),
                    receiver.pp == self.pp,
                    receiver.public_key() == pki@[i as int]@,
                    forall|k: int|
                        0 <= k < n ==> (#[trigger] receiver.share@[k]).value == shares@[i - 1]@[k].value,
                    forall|a: int, b: int|
                        0 <= a < i && a <= b < n ==> signed_ok(
                            #[trigger] signed_rows@[a]@[b],
                            shares@[a]@[b].value,
                            pk0,
                            pki@[a + 1]@,
                        ),
                    expanded.len() == n,
                    opt_row_values_wf(expanded@),
                    forall|b: int|
                        0 <= b < j - 1 ==> triple_ok(
                            #[trigger] expanded@[b],
                            pk0,
                            pki@[b + 1]@,
                            pki@[i as int]@,
                            f.value_at(i as int, b + 1),
                        ),
                decreases i + 1 - j,
            {
                match &signed_rows[(j - 1) as usize][(i - 1) as usize] {
                    Some(s) => {
                        proof {
                            assert(signed_ok(
                                signed_rows@[j - 1]@[i - 1],
                                shares@[j - 1]@[i - 1].value,
                                pk0,
                                pki@[j as int]@,
                            ));
                            assert(shares@[j - 1]@[i - 1].value.wf());
                            assert(shares@[i - 1]@[j - 1].value.wf());
                            crate::polynomials::lemma_eval_symmetric(f, i as int, j as int);
                            assert(receiver.share@[j - 1].value == shares@[i - 1]@[j - 1].value);
                        }
                        let (happy, e) = receiver.receive_from_party(j, s, &pki[0], &pki[j as usize]);
                        if happy {
                            expanded.set((j - 1) as usize, Some(e));
                        }
                        proof {
                            assert(happy);
                            lemma_sig_view_accepts(e.dealer_signature, s.dealer_signature, pk0, message_of(s.value));
                            lemma_sig_view_accepts(
                                e.signature_lower,
                                s.signature_lower,
                                pki@[j as int]@,
                                message_of(s.value),
                            );
                        }
                    },
                    None => {
                        proof {
                            assert(signed_ok(
                                signed_rows@[j - 1]@[i - 1],
                                shares@[j - 1]@[i - 1].value,
                                pk0,
                                pki@[j as int]@,
                            ));
                        }
                    },
                }
                j = j + 1;
            }
            let ghost old_triple = triple_rows@;
            triple_rows.push(expanded);
            proof {
                assert forall|a: int, b: int|
                    0 <= a < i && 0 <= b <= a implies triple_ok(
                        #[trigger] triple_rows@[a]@[b],
                        pk0,
                        pki@[b + 1]@,
                        pki@[a + 1]@,
                        f.value_at(a + 1, b + 1),
                    ) by {
                    if a < i - 1 {
                        assert(triple_rows@[a] == old_triple[a]);
                        assert(pki@[a + 1] == old_pki[a + 1]);
                        assert(pki@[b + 1] == old_pki[b + 1]);
                    }
                }
            }
            i = i + 1;
        }
        let mut aggregate: Vec<Vec<Option<Subshare>>> = Vec::new();
        let mut round: u64 = 0;
        while round <= t
            invariant
                self.pp.wf(),
                n == self.pp.n,
                t == self.pp.t,
                pki.len() == n + 1,
                pki@[0]@ == pk0,
                triple_rows.len() == n,
                rows_wf(triple_rows@, n as nat),
                forall|a: int, b: int|
                    0 <= a < n && 0 <= b <= a ==> triple_ok(
                        #[trigger] triple_rows@[a]@[b],
                        pk0,
                        pki@[b + 1]@,
                        pki@[a + 1]@,
                        f.value_at(a + 1, b + 1),
                    ),
                round == 0 || (aggregate.len() == n && rows_wf(aggregate@, n as nat) && forall|
                    a: int,
                    b: int,
                |
                    0 <= a < n && 0 <= b <= a ==> triple_ok(
                        #[trigger] aggregate@[a]@[b],
                        pk0,
                        pki@[b + 1]@,
                        pki@[a + 1]@,
                        f.value_at(a + 1, b + 1),
                    )),
            decreases t + 1 - round,
        {
            let mut reconstructor = Reconstructor::new(self.pp);
            let mut published: Vec<Vec<Option<Subshare>>> = Vec::new();
            let mut j: u64 = 1;
            while j <= n
                invariant
                    self.pp.wf(),
                    n == self.pp.n,
                    pki.len() == n + 1,
                    pki@[0]@ == pk0,
                    triple_rows.len() == n,
                    rows_wf(triple_rows@, n as nat),
                    forall|a: int, b: int|
                        0 <= a < n && 0 <= b <= a ==> triple_ok(
                            #[trigger] triple_rows@[a]@[b],
                            pk0,
                            pki@[b + 1]@,
                            pki@[a + 1]@,
                            f.value_at(a + 1, b + 1),
                        ),
                    1 <= j <= n + 1,
                    published.len() == j - 1,
                    rows_wf(published@, n as nat),
                    forall|a: int, b: int|
                        0 <= a < j - 1 && 0 <= b <= a ==> triple_ok(
                            #[trigger] published@[a]@[b],
                            pk0,
                            pki@[b + 1]@,
                            pki@[a + 1]@,
                            f.value_at(a + 1, b + 1),
                        ),
                decreases n + 1 - j,
            {
                let row = reconstructor.receive_from_party(j, &triple_rows[(j - 1) as usize], &pki);
                proof {
                    assert forall|b: int| 0 <= b < j implies triple_ok(
                        #[trigger] row@[b],
                        pk0,
                        pki@[b + 1]@,
                        pki@[j as int]@,
                        f.value_at(j as int, b + 1),
                    ) by {
                        let s = triple_rows@[j - 1]@[b]->0;
                        assert(triple_ok(
                            triple_rows@[j - 1]@[b],
                            pk0,
                            pki@[b + 1]@,
                            pki@[j as int]@,
                            f.value_at(j as int, b + 1),
                        ));
                        let c = row@[b]->0;
                        lemma_sig_view_accepts(c.dealer_signature, s.dealer_signature, pk0, message_of(s.value));
                        lemma_sig_view_accepts(c.signature_lower, s.signature_lower, pki@[b + 1]@, message_of(s.value));
                        lemma_sig_view_accepts(c.signature_higher, s.signature_higher, pki@[j as int]@, message_of(s.value));
                    }
                }
                published.push(row);
                j = j + 1;
            }
            aggregate = published;
            round = round + 1;
        }
        let client = Client::new(self.pp);
        let r = client.compute_secret(&aggregate, &pki);
        proof {
            if n >= 2 * t + 1 {
                let rows = aggregate@;
                let keys = pki@;
                assert forall|i: int, k: int| 1 <= i <= n && 1 <= k <= n implies #[trigger] point_verifies(
                    rows,
                    keys,
                    i,
                    k,
                ) && pair_value(rows, i, k) == f.value_at(i, k) by {
                    let hi = if i >= k { i } else { k };
                    let lo = if i >= k { k } else { i };
                    assert(triple_ok(
                        rows[hi - 1]@[lo - 1],
                        pk0,
                        keys[lo]@,
                        keys[hi]@,
                        f.value_at(hi, lo),
                    ));
                    crate::polynomials::lemma_eval_symmetric(f, i, k);
                }
                lemma_honest_grid_recovers(rows, keys, f, t, n as nat);
                assert(f.coeff(0, 0) == self.secret.val());
                crate::field::lemma_modulus_large();
                lemma_small_mod(self.secret.val() as nat, modulus() as nat);
                crate::field::lemma_val_injective(r.1, self.secret);
            }
        }
        r
    }
}

} // verus!
