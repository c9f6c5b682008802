//! The constraint model: declarative bounds on integers, sizes and
//! enumerations, and the schema tree that carries them.

use vstd::prelude::*;

verus! {

/// Lengths that a general length determinant carries stay below this limit;
/// larger ones would need fragmentation, which this codec does not perform.
pub const GENERAL_LENGTH_LIMIT: usize = 16384;

/// Which of the two packed encodings is in use.
#[derive(Clone, Copy, Debug, PartialEq, Eq, Structural)]
pub enum Codec {
    /// The aligned variant, which pads to octet boundaries.
    Aper,
    /// The unaligned variant, which never pads.
    Uper,
}

impl Codec {
    /// Whether this variant pads to octet boundaries.
    pub open spec fn aligned(self) -> bool {
        self == Codec::Aper
    }

    /// Whether this variant pads to octet boundaries.
    pub fn is_aligned(self) -> (a: bool)
        ensures
            a == self.aligned(),
    {
        match self {
            Codec::Aper => true,
            Codec::Uper => false,
        }
    }
}

/// Bounds on an integer. Either bound may be absent.
#[derive(Clone, Copy, Debug, PartialEq, Eq, Structural)]
pub struct IntegerConstraint {
    pub lower_bound: Option<i64>,
    pub upper_bound: Option<i64>,
    pub extensible: bool,
}

impl IntegerConstraint {
    /// Whether `v` lies within the declared bounds.
    pub open spec fn in_root(self, v: int) -> bool {
        &&& self.lower_bound matches Some(lb) ==> lb <= v
        &&& self.upper_bound matches Some(ub) ==> v <= ub
    }

    /// Whether `v` is a value of the type: a 64-bit integer within the bounds,
    /// or any 64-bit integer where the type is extensible.
    pub open spec fn admits(self, v: int) -> bool {
        &&& i64::MIN <= v <= i64::MAX
        &&& self.in_root(v) || self.extensible
    }

    /// A constraint without bounds.
    pub fn unconstrained() -> (c: IntegerConstraint)
        ensures
            c == (IntegerConstraint { lower_bound: None, upper_bound: None, extensible: false }),
    {
        IntegerConstraint { lower_bound: None, upper_bound: None, extensible: false }
    }

    /// The constraint `lb..=ub`, not extensible.
    pub fn range(lb: i64, ub: i64) -> (c: IntegerConstraint)
        ensures
            c == (IntegerConstraint {
                lower_bound: Some(lb),
                upper_bound: Some(ub),
                extensible: false,
            }),
    {
        IntegerConstraint { lower_bound: Some(lb), upper_bound: Some(ub), extensible: false }
    }

    /// Whether `v` lies within the declared bounds.
    pub fn contains(&self, v: i64) -> (b: bool)
        ensures
            b == self.in_root(v as int),
    {
        let above = match self.lower_bound {
            Some(lb) => lb <= v,
            None => true,
        };
        let below = match self.upper_bound {
            Some(ub) => v <= ub,
            None => true,
        };
        above && below
    }
}

/// Bounds on the size of a string or of a repetition. Either bound may be
/// absent; an absent minimum is zero.
#[derive(Clone, Copy, Debug, PartialEq, Eq, Structural)]
pub struct SizeConstraint {
    pub min_size: Option<usize>,
    pub max_size: Option<usize>,
    pub extensible: bool,
}

impl SizeConstraint {
    /// The least size allowed.
    pub open spec fn lower(self) -> nat {
        match self.min_size {
            Some(m) => m as nat,
            None => 0,
        }
    }

    /// Whether `len` lies within the declared bounds.
    pub open spec fn in_root(self, len: nat) -> bool {
        &&& self.lower() <= len
        &&& self.max_size matches Some(mx) ==> len <= mx
    }

    /// Whether the length of a value within the bounds is written in a field
    /// of fixed width, rather than as a general length determinant.
    pub open spec fn bounded(self) -> bool {
        self.max_size is Some
    }

    /// Whether `len` is a size that can be carried: within the bounds, or any
    /// size where the type is extensible; and below the limit of the general
    /// length determinant wherever that form is used.
    pub open spec fn admits(self, len: nat) -> bool {
        if self.in_root(len) {
            self.bounded() || len < GENERAL_LENGTH_LIMIT
        } else {
            self.extensible && len < GENERAL_LENGTH_LIMIT
        }
    }

    /// Whether the type has exactly one size, and that size is at most `small`.
    pub open spec fn fixed_within(self, small: nat) -> bool {
        &&& !self.extensible
        &&& self.max_size matches Some(mx)
        &&& self.lower() == mx
        &&& mx <= small
    }

    /// A constraint without bounds.
    pub fn unconstrained() -> (c: SizeConstraint)
        ensures
            c == (SizeConstraint { min_size: None, max_size: None, extensible: false }),
    {
        SizeConstraint { min_size: None, max_size: None, extensible: false }
    }

    /// The constraint `min..=max`, not extensible.
    pub fn range(min: usize, max: usize) -> (c: SizeConstraint)
        ensures
            c == (SizeConstraint { min_size: Some(min), max_size: Some(max), extensible: false }),
    {
        SizeConstraint { min_size: Some(min), max_size: Some(max), extensible: false }
    }

    /// The least size allowed.
    pub fn minimum(&self) -> (m: usize)
        ensures
            m == self.lower(),
    {
        match self.min_size {
            Some(m) => m,
            None => 0,
        }
    }

    /// Whether `len` lies within the declared bounds.
    pub fn contains(&self, len: usize) -> (b: bool)
        ensures
            b == self.in_root(len as nat),
    {
        let below = match self.max_size {
            Some(mx) => len <= mx,
            None => true,
        };
        self.minimum() <= len && below
    }

    /// Whether `len` is a size that can be carried.
    pub fn accepts(&self, len: usize) -> (b: bool)
        ensures
            b == self.admits(len as nat),
    {
        if self.contains(len) {
            self.max_size.is_some() || len < GENERAL_LENGTH_LIMIT
        } else {
            self.extensible && len < GENERAL_LENGTH_LIMIT
        }
    }

    /// Whether the type has exactly one size, and that size is at most `small`.
    pub fn is_fixed_within(&self, small: usize) -> (b: bool)
        ensures
            b == self.fixed_within(small as nat),
    {
        match self.max_size {
            Some(mx) => !self.extensible && self.minimum() == mx && mx <= small,
            None => false,
        }
    }
}

/// The values of an enumeration: the root values in order, the position of
/// the extension marker where there is one, and the extension values in order.
#[derive(Clone, Debug, PartialEq, Eq)]
pub struct EnumConstraint {
    pub root_values: Vec<i64>,
    pub ext_marker_index: Option<usize>,
    pub ext_values: Vec<i64>,
}

impl EnumConstraint {
    /// The number of root values.
    pub open spec fn root_count(self) -> nat {
        self.root_values@.len()
    }

    /// The number of extension values.
    pub open spec fn ext_count(self) -> nat {
        self.ext_values@.len()
    }

    /// Whether the enumeration has an extension marker.
    pub open spec fn extensible(self) -> bool {
        self.ext_marker_index is Some
    }

    /// Whether `index` names a value: root values come first, from zero, and
    /// the extension values of an extensible enumeration follow them. An
    /// index beyond the machine's size type names none.
    pub open spec fn admits(self, index: nat) -> bool {
        &&& index <= usize::MAX
        &&& index < self.root_count() || (self.extensible() && index < self.root_count()
            + self.ext_count())
    }

    /// Whether `index` names a value.
    pub fn accepts(&self, index: usize) -> (b: bool)
        ensures
            b == self.admits(index as nat),
    {
        if index < self.root_values.len() {
            true
        } else {
            self.ext_marker_index.is_some() && index - self.root_values.len()
                < self.ext_values.len()
        }
    }
}

/// The shape of a value and the constraints on it.
#[derive(Debug, PartialEq, Eq)]
pub enum Schema {
    Boolean,
    Integer(IntegerConstraint),
    Enumerated(EnumConstraint),
    OctetString(SizeConstraint),
    BitString(SizeConstraint),
    Null,
    ObjectIdentifier,
    /// An ordered list of fields, all of them present.
    Sequence { fields: Vec<Schema> },
    /// A repetition of one element kind.
    SequenceOf { size: SizeConstraint, element: Box<Schema> },
    /// One of several alternatives. An extensible choice is written with a
    /// leading bit that says whether the alternative is one of those listed;
    /// only listed alternatives are supported.
    Choice { alternatives: Vec<Schema>, extensible: bool },
}

impl Schema {
    /// Whether no value of the schema is without an object identifier: the
    /// schema is one, or a sequence with such a field, or a repetition of
    /// such an element that cannot be empty, or a choice among such
    /// alternatives only.
    pub open spec fn demands_oid(self) -> bool
        decreases self,
    {
        match self {
            Schema::ObjectIdentifier => true,
            Schema::Sequence { fields } => exists|i: int|
                0 <= i < fields@.len() && (#[trigger] fields@[i]).demands_oid(),
            Schema::SequenceOf { size, element } => !size.extensible && size.lower() >= 1
                && element.demands_oid(),
            Schema::Choice { alternatives, extensible } => forall|i: int|
                0 <= i < alternatives@.len() ==> (#[trigger] alternatives@[i]).demands_oid(),
            _ => false,
        }
    }

    /// Whether an object identifier occurs anywhere in the schema.
    pub open spec fn mentions_oid(self) -> bool
        decreases self,
    {
        match self {
            Schema::ObjectIdentifier => true,
            Schema::Sequence { fields } => exists|i: int|
                0 <= i < fields@.len() && (#[trigger] fields@[i]).mentions_oid(),
            Schema::SequenceOf { size, element } => element.mentions_oid(),
            Schema::Choice { alternatives, extensible } => exists|i: int|
                0 <= i < alternatives@.len() && (#[trigger] alternatives@[i]).mentions_oid(),
            _ => false,
        }
    }
}

} // verus!
