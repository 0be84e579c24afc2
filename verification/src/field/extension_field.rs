//! Extensions of a field: the larger field in which the verifier takes its
//! challenges, with the embedding of the base field.
use crate::field::crandall_field::CrandallField;
use crate::field::field_types::{all_wf, Field, Powers};
use vstd::prelude::*;

verus! {

/// A field that extends `F` as a vector space of finite dimension.
pub trait FieldExtension<F: Field>: Field {
    /// The dimension of the extension over the base field.
    spec fn dimension_spec() -> nat;

    /// The element of the extension that a base element is.
    spec fn from_basefield_spec(x: F) -> Self;

    /// The coordinates of an element over the base field.
    spec fn to_basefield_seq(self) -> Seq<F>;

    /// The embedding and the coordinates keep values well formed; there are as
    /// many coordinates as the dimension says.
    proof fn lemma_extension_wf(x: F, e: Self)
        requires
            x.wf(),
            e.wf(),
        ensures
            Self::dimension_spec() >= 1,
            Self::from_basefield_spec(x).wf(),
            e.to_basefield_seq().len() == Self::dimension_spec(),
            all_wf(e.to_basefield_seq()),
    ;

    fn dimension() -> (r: usize)
        ensures
            r == Self::dimension_spec(),
    ;

    fn from_basefield(x: F) -> (r: Self)
        requires
            x.wf(),
        ensures
            r == Self::from_basefield_spec(x),
            r.wf(),
    ;

    fn to_basefield_array(&self) -> (r: Vec<F>)
        requires
            self.wf(),
        ensures
            r@ == self.to_basefield_seq(),
            all_wf(r@),
    ;
}

/// An extension with the automorphism that fixes the base field and maps
/// every element to its power by the base field's order.
pub trait Frobenius<F: Field>: FieldExtension<F> {
    /// The element after `count` applications of the automorphism.
    spec fn repeated_frobenius_spec(self, count: nat) -> Self;

    /// The automorphism keeps values well formed; applied no times it changes
    /// nothing, and it fixes the base field.
    proof fn lemma_frobenius(e: Self, x: F, count: nat)
        requires
            e.wf(),
            x.wf(),
        ensures
            e.repeated_frobenius_spec(count).wf(),
            e.repeated_frobenius_spec(0) == e,
            Self::from_basefield_spec(x).repeated_frobenius_spec(count) == Self::from_basefield_spec(x),
    ;

    /// Applies the automorphism `count` times.
    fn repeated_frobenius(&self, count: usize) -> (r: Self)
        requires
            self.wf(),
        ensures
            r == self.repeated_frobenius_spec(count as nat),
            r.wf(),
    ;
}

/// The coordinates of a sequence of extension elements, one element after the
/// other.
pub open spec fn flatten_spec<F: Field, E: FieldExtension<F>>(l: Seq<E>) -> Seq<F>
    decreases l.len(),
{
    if l.len() == 0 {
        Seq::empty()
    } else {
        flatten_spec::<F, E>(l.drop_last()) + l.last().to_basefield_seq()
    }
}

/// The coordinates of well-formed elements are well formed.
pub proof fn lemma_flatten_wf<F: Field, E: FieldExtension<F>>(l: Seq<E>)
    requires
        all_wf(l),
    ensures
        all_wf(flatten_spec::<F, E>(l)),
    decreases l.len(),
{
    if l.len() > 0 {
        lemma_flatten_wf::<F, E>(l.drop_last());
        F::lemma_constants();
        E::lemma_extension_wf(F::zero_spec(), l.last());
    }
}

/// Flattens the extension elements of `l` into base field elements.
pub fn flatten<F: Field, E: FieldExtension<F>>(l: &[E]) -> (r: Vec<F>)
    requires
        all_wf(l@),
    ensures
        r@ == flatten_spec::<F, E>(l@),
        all_wf(r@),
{
    let mut res: Vec<F> = Vec::new();
    let mut i: usize = 0;
    assert(l@.take(0) =~= Seq::<E>::empty());
    while i < l.len()
        invariant
            i <= l@.len(),
            all_wf(l@),
            res@ == flatten_spec::<F, E>(l@.take(i as int)),
        decreases l@.len() - i,
    {
        let mut coords = l[i].to_basefield_array();
        proof {
            let next = l@.take(i + 1);
            assert(next.drop_last() =~= l@.take(i as int));
            assert(next.last() == l@[i as int]);
        }
        res.append(&mut coords);
        i = i + 1;
    }
    proof {
        assert(l@.take(l@.len() as int) =~= l@);
        lemma_flatten_wf::<F, E>(l@);
    }
    res
}

/// Every field is an extension of itself, of dimension one.
impl FieldExtension<CrandallField> for CrandallField {
    open spec fn dimension_spec() -> nat {
        1
    }

    open spec fn from_basefield_spec(x: CrandallField) -> Self {
        x
    }

    open spec fn to_basefield_seq(self) -> Seq<CrandallField> {
        seq![self]
    }

    proof fn lemma_extension_wf(x: CrandallField, e: Self) {
    }

    fn dimension() -> (r: usize) {
        1
    }

    fn from_basefield(x: CrandallField) -> (r: Self) {
        x
    }

    fn to_basefield_array(&self) -> (r: Vec<CrandallField>) {
        let mut v: Vec<CrandallField> = Vec::new();
        v.push(*self);
        assert(v@ =~= seq![*self]);
        v
    }
}

/// On a field as its own extension the automorphism is the identity.
impl Frobenius<CrandallField> for CrandallField {
    open spec fn repeated_frobenius_spec(self, count: nat) -> Self {
        self
    }

    proof fn lemma_frobenius(e: Self, x: CrandallField, count: nat) {
    }

    fn repeated_frobenius(&self, count: usize) -> (r: Self) {
        *self
    }
}

impl<E: Field> Powers<E> {
    /// The powers with the automorphism applied `k` times to each: those of
    /// the image of the base, from the image of the current one on.
    pub fn repeated_frobenius<F: Field>(self, k: usize) -> (r: Self) where E: Frobenius<F>
        requires
            self.wf(),
        ensures
            r.base == self.base.repeated_frobenius_spec(k as nat),
            r.current == self.current.repeated_frobenius_spec(k as nat),
            r.wf(),
    {
        let Powers { base, current } = self;
        Powers { base: base.repeated_frobenius(k), current: current.repeated_frobenius(k) }
    }
}

} // verus!
