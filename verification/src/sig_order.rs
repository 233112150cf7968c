//! Equality and order of signatures: by their bytes, lexicographically.
use vstd::laws_cmp::obeys_partial_cmp_spec_properties;
use vstd::laws_eq::{obeys_concrete_eq, obeys_eq_spec_properties};
use vstd::prelude::*;
use vstd::std_specs::cmp::{PartialEqSpec, PartialOrdSpec};
use core::cmp::Ordering;

use crate::signature::{
    bytes_precede, compare_bytes, lemma_bytes_precede_asymmetric, lemma_bytes_precede_irreflexive,
    lemma_bytes_precede_total, lemma_bytes_precede_transitive, Signature,
};

verus! {

broadcast use vstd::array::group_array_axioms;

/// The order of two signatures: that of their bytes.
pub open spec fn signature_order(a: Signature, b: Signature) -> Ordering {
    if bytes_precede(a.bytes_view(), b.bytes_view()) {
        Ordering::Less
    } else if a.bytes_view() == b.bytes_view() {
        Ordering::Equal
    } else {
        Ordering::Greater
    }
}

impl PartialEq for Signature {
    fn eq(&self, other: &Signature) -> (res: bool) {
        let r = compare_bytes(self.bytes(), other.bytes());
        r == 0
    }
}

impl vstd::std_specs::cmp::PartialEqSpecImpl for Signature {
    open spec fn obeys_eq_spec() -> bool {
        true
    }

    open spec fn eq_spec(&self, other: &Signature) -> bool {
        self.bytes_view() == other.bytes_view()
    }
}

impl Eq for Signature {

}

impl PartialOrd for Signature {
    fn partial_cmp(&self, other: &Signature) -> (res: Option<Ordering>) {
        let r = compare_bytes(self.bytes(), other.bytes());
        if r == -1 {
            Some(Ordering::Less)
        } else if r == 0 {
            Some(Ordering::Equal)
        } else {
            Some(Ordering::Greater)
        }
    }
}

impl vstd::std_specs::cmp::PartialOrdSpecImpl for Signature {
    open spec fn obeys_partial_cmp_spec() -> bool {
        true
    }

    open spec fn partial_cmp_spec(&self, other: &Signature) -> Option<Ordering> {
        Some(signature_order(*self, *other))
    }
}

/// Two signatures are equal (`==`) exactly when they are the same value.
pub proof fn lemma_signature_eq_is_identity()
    ensures
        obeys_concrete_eq::<Signature>(),
{
    assert forall|x: Signature, y: Signature| x.eq_spec(&y) <==> x == y by {
        let Signature::SshEd25519(a) = x;
        let Signature::SshEd25519(b) = y;
        if a@ == b@ {
            assert(a == b);
        }
    }
    reveal(obeys_concrete_eq);
}

/// Signature equality is symmetric and transitive.
pub proof fn lemma_signature_eq_laws()
    ensures
        obeys_eq_spec_properties::<Signature>(),
{
    reveal(obeys_eq_spec_properties);
}

/// The order of signatures is consistent with their equality, and is
/// antisymmetric and transitive: a total order.
pub proof fn lemma_signature_order_laws()
    ensures
        obeys_partial_cmp_spec_properties::<Signature>(),
{
    assert forall|x: Signature, y: Signature|
        #[trigger] x.partial_cmp_spec(&y) == Some(Ordering::Equal) <==> x.eq_spec(&y) by {
        lemma_bytes_precede_irreflexive(x.bytes_view());
    }
    assert forall|x: Signature, y: Signature|
        #[trigger] x.partial_cmp_spec(&y) == Some(Ordering::Less) <==> y.partial_cmp_spec(&x)
            == Some(Ordering::Greater) by {
        lemma_bytes_precede_asymmetric(x.bytes_view(), y.bytes_view());
        lemma_bytes_precede_asymmetric(y.bytes_view(), x.bytes_view());
        lemma_bytes_precede_total(x.bytes_view(), y.bytes_view());
        lemma_bytes_precede_irreflexive(x.bytes_view());
    }
    assert forall|x: Signature, y: Signature, z: Signature|
        x.partial_cmp_spec(&y) == Some(Ordering::Less) && #[trigger] y.partial_cmp_spec(&z)
            == Some(Ordering::Less) implies #[trigger] x.partial_cmp_spec(&z) == Some(
        Ordering::Less,
    ) by {
        lemma_bytes_precede_transitive(x.bytes_view(), y.bytes_view(), z.bytes_view());
    }
    assert forall|x: Signature, y: Signature, z: Signature|
        x.partial_cmp_spec(&y) == Some(Ordering::Greater) && #[trigger] y.partial_cmp_spec(&z)
            == Some(Ordering::Greater) implies #[trigger] x.partial_cmp_spec(&z) == Some(
        Ordering::Greater,
    ) by {
        lemma_bytes_precede_total(x.bytes_view(), y.bytes_view());
        lemma_bytes_precede_total(y.bytes_view(), z.bytes_view());
        lemma_bytes_precede_asymmetric(x.bytes_view(), y.bytes_view());
        lemma_bytes_precede_asymmetric(y.bytes_view(), z.bytes_view());
        lemma_bytes_precede_irreflexive(x.bytes_view());
        lemma_bytes_precede_irreflexive(y.bytes_view());
        lemma_bytes_precede_transitive(z.bytes_view(), y.bytes_view(), x.bytes_view());
        lemma_bytes_precede_asymmetric(x.bytes_view(), z.bytes_view());
    }
    lemma_signature_eq_laws();
    reveal(obeys_partial_cmp_spec_properties);
}

} // verus!
