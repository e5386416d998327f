//! The dynamic value box: a value paired with its signature, for places
//! where the concrete type is not known until decode time.
//!
//! Boxing is lossless: unboxing with the original signature reproduces the
//! value, and unboxing with any other signature fails with a type
//! mismatch, never a coerced value.

use vstd::prelude::*;
use crate::Error;
use crate::value::{Value, sig_of};
use crate::message::bytes_eq;

verus! {

/// A boxed, runtime-inspectable value plus its signature.
pub struct DynamicValue {
    sig: Vec<u8>,
    value: Box<Value>,
}

impl DynamicValue {
    /// The stored signature always describes the stored value: an
    /// invariant of the type, established at boxing and never broken.
    #[verifier::type_invariant]
    pub closed spec fn wf(&self) -> bool {
        self.sig@ == sig_of((*self.value)@)
    }

    /// The boxed value, for specifications.
    pub closed spec fn spec_value(&self) -> Value {
        *self.value
    }

    /// The stored signature, for specifications.
    pub closed spec fn spec_sig(&self) -> Seq<u8> {
        self.sig@
    }

    /// What well-formedness means, for callers outside this module: the
    /// stored signature is the stored value's.
    pub proof fn lemma_wf(&self)
        requires
            self.wf(),
        ensures
            self.spec_sig() == sig_of(self.spec_value()@),
    {
    }

    /// Boxes a value with its own signature.
    pub fn box_value(v: Value) -> (r: DynamicValue)
        ensures
            r.wf(),
            r.spec_value() == v,
            r.spec_sig() == sig_of(v@),
    {
        let sig = v.signature();
        DynamicValue { sig, value: Box::new(v) }
    }

    /// The signature of the boxed value.
    pub fn signature(&self) -> (r: &Vec<u8>)
        ensures
            r@ == self.spec_sig(),
    {
        &self.sig
    }

    /// A borrowed view of the boxed value.
    pub fn peek(&self) -> (r: &Value)
        ensures
            *r == self.spec_value(),
    {
        &self.value
    }

    /// Unboxes as the target signature: the original signature returns the
    /// value unchanged; any other signature fails with a type mismatch.
    pub fn unbox_as(self, target: &Vec<u8>) -> (r: Result<Value, Error>)
        ensures
            target@ == self.spec_sig() ==> (r matches Ok(v) && v == self.spec_value()),
            target@ != self.spec_sig() ==> (r matches Err(e) && e is TypeMismatch),
    {
        proof {
            use_type_invariant(&self);
        }
        if bytes_eq(&self.sig, target) {
            Ok(*self.value)
        } else {
            Err(Error::TypeMismatch)
        }
    }
}

} // verus!
