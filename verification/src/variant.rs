//! Picking the variant of an enum that a decoded tag names.
//!
//! An enum is written as a tag followed by the fields of its variant. An
//! ordinal tag is the variant's discriminant; a nominal tag is the variant's
//! name as a string. Decoding reads the tag and takes the first variant whose
//! discriminant or name it equals; a tag that names none is an error.

use crate::bits::NetInt;
use crate::{BadEnumName, BadEnumOrdinal};
use vstd::prelude::*;

verus! {

/// The position of the first variant whose discriminant is `ordinal`, or the
/// ordinal back as an error where no variant has it.
pub fn variant_by_ordinal<T: NetInt>(ordinal: T, discriminants: &[T]) -> (r: Result<usize, BadEnumOrdinal<T>>)
    ensures
        match r {
            Ok(i) => i < discriminants@.len() && discriminants@[i as int] == ordinal
                && forall|j: int| 0 <= j < i ==> discriminants@[j] != ordinal,
            Err(e) => e.0 == ordinal && forall|j: int| 0 <= j < discriminants@.len() ==> discriminants@[j] != ordinal,
        },
{
    let wanted = ordinal.to_bits();
    proof { ordinal.lemma_bits(); }
    let mut i: usize = 0;
    while i < discriminants.len()
        invariant
            i <= discriminants@.len(),
            wanted == ordinal.spec_bits(),
            T::spec_from_bits(ordinal.spec_bits()) == ordinal,
            forall|j: int| 0 <= j < i ==> discriminants@[j] != ordinal,
        decreases discriminants@.len() - i,
    {
        let d = discriminants[i];
        proof { d.lemma_bits(); }
        if d.to_bits() == wanted {
            return Ok(i);
        }
        i = i + 1;
    }
    Err(BadEnumOrdinal(ordinal))
}

/// The position of the first variant whose name is `name`, or the name back as
/// an error where no variant has it.
pub fn variant_by_name(name: String, names: &Vec<String>) -> (r: Result<usize, BadEnumName>)
    ensures
        match r {
            Ok(i) => i < names@.len() && names@[i as int]@ == name@
                && forall|j: int| 0 <= j < i ==> names@[j]@ != name@,
            Err(e) => e.0@ == name@ && forall|j: int| 0 <= j < names@.len() ==> names@[j]@ != name@,
        },
{
    let mut i: usize = 0;
    while i < names.len()
        invariant
            i <= names@.len(),
            forall|j: int| 0 <= j < i ==> names@[j]@ != name@,
        decreases names@.len() - i,
    {
        if names[i] == name {
            return Ok(i);
        }
        i = i + 1;
    }
    Err(BadEnumName(name))
}

} // verus!
