//! Configuration wrappers that change codec behavior.
//!
//! A configuration is a base [`DefaultConfig`] wrapped in zero or more of the
//! other configs. Each wrapper overrides exactly one aspect — struct framing,
//! variant identifier form, or the human-readable flag — and delegates the
//! rest inward, so the outermost wrapper wins for the aspect it controls.

use vstd::prelude::*;

verus! {

/// What a configuration dictates to the codec. Each aspect has a spec-level
/// reading, and the executable accessors return exactly those readings.
pub trait SerializerConfig: Sized {
    /// Whether structs are framed as maps with field-name keys (`true`) or
    /// as arrays of field values (`false`).
    spec fn spec_struct_map(&self) -> bool;

    /// Whether enum variant identifiers are written as the variant index
    /// (`true`) or as the variant name (`false`).
    spec fn spec_variant_index(&self) -> bool;

    /// Whether the data model should treat values as human-readable.
    spec fn spec_human_readable(&self) -> bool;

    /// Struct framing aspect, as an executable decision.
    fn struct_map(&self) -> (r: bool)
        ensures
            r == self.spec_struct_map(),
    ;

    /// Variant identifier aspect, as an executable decision.
    fn variant_index(&self) -> (r: bool)
        ensures
            r == self.spec_variant_index(),
    ;

    /// Human-readable aspect, as an executable decision.
    fn is_human_readable(&self) -> (r: bool)
        ensures
            r == self.spec_human_readable(),
    ;
}

/// The default configuration: structs as arrays of field values, variants by
/// name, binary representations.
#[derive(Clone, Copy, Debug)]
pub struct DefaultConfig;

impl SerializerConfig for DefaultConfig {
    open spec fn spec_struct_map(&self) -> bool {
        false
    }

    open spec fn spec_variant_index(&self) -> bool {
        false
    }

    open spec fn spec_human_readable(&self) -> bool {
        false
    }

    fn struct_map(&self) -> bool {
        false
    }

    fn variant_index(&self) -> bool {
        false
    }

    fn is_human_readable(&self) -> bool {
        false
    }
}

/// Config wrapper that overrides struct serialization to pack structs as
/// maps with field names; everything else delegates inward.
#[derive(Clone, Copy, Debug)]
pub struct StructMapConfig<C>(pub C);

impl<C> StructMapConfig<C> {
    /// Creates a `StructMapConfig` inheriting unchanged configuration
    /// options from the given configuration.
    pub fn new(inner: C) -> (r: Self)
        ensures
            r == StructMapConfig(inner),
    {
        StructMapConfig(inner)
    }
}

impl<C: SerializerConfig> SerializerConfig for StructMapConfig<C> {
    open spec fn spec_struct_map(&self) -> bool {
        true
    }

    open spec fn spec_variant_index(&self) -> bool {
        self.0.spec_variant_index()
    }

    open spec fn spec_human_readable(&self) -> bool {
        self.0.spec_human_readable()
    }

    fn struct_map(&self) -> bool {
        true
    }

    fn variant_index(&self) -> bool {
        self.0.variant_index()
    }

    fn is_human_readable(&self) -> bool {
        self.0.is_human_readable()
    }
}

/// Config wrapper that overrides struct serialization to pack structs as
/// arrays of field values, without names; everything else delegates inward.
#[derive(Clone, Copy, Debug)]
pub struct StructTupleConfig<C>(pub C);

impl<C> StructTupleConfig<C> {
    /// Creates a `StructTupleConfig` inheriting unchanged configuration
    /// options from the given configuration.
    pub fn new(inner: C) -> (r: Self)
        ensures
            r == StructTupleConfig(inner),
    {
        StructTupleConfig(inner)
    }
}

impl<C: SerializerConfig> SerializerConfig for StructTupleConfig<C> {
    open spec fn spec_struct_map(&self) -> bool {
        false
    }

    open spec fn spec_variant_index(&self) -> bool {
        self.0.spec_variant_index()
    }

    open spec fn spec_human_readable(&self) -> bool {
        self.0.spec_human_readable()
    }

    fn struct_map(&self) -> bool {
        false
    }

    fn variant_index(&self) -> bool {
        self.0.variant_index()
    }

    fn is_human_readable(&self) -> bool {
        self.0.is_human_readable()
    }
}

/// Config wrapper that overrides the human-readable flag to `true`;
/// everything else delegates inward.
#[derive(Clone, Copy, Debug)]
pub struct HumanReadableConfig<C>(pub C);

impl<C> HumanReadableConfig<C> {
    /// Creates a `HumanReadableConfig` inheriting unchanged configuration
    /// options from the given configuration.
    pub fn new(inner: C) -> (r: Self)
        ensures
            r == HumanReadableConfig(inner),
    {
        HumanReadableConfig(inner)
    }
}

impl<C: SerializerConfig> SerializerConfig for HumanReadableConfig<C> {
    open spec fn spec_struct_map(&self) -> bool {
        self.0.spec_struct_map()
    }

    open spec fn spec_variant_index(&self) -> bool {
        self.0.spec_variant_index()
    }

    open spec fn spec_human_readable(&self) -> bool {
        true
    }

    fn struct_map(&self) -> bool {
        self.0.struct_map()
    }

    fn variant_index(&self) -> bool {
        self.0.variant_index()
    }

    fn is_human_readable(&self) -> bool {
        true
    }
}

/// Config wrapper that overrides the human-readable flag to `false`;
/// everything else delegates inward.
#[derive(Clone, Copy, Debug)]
pub struct BinaryConfig<C>(pub C);

impl<C> BinaryConfig<C> {
    /// Creates a `BinaryConfig` inheriting unchanged configuration options
    /// from the given configuration.
    pub fn new(inner: C) -> (r: Self)
        ensures
            r == BinaryConfig(inner),
    {
        BinaryConfig(inner)
    }
}

impl<C: SerializerConfig> SerializerConfig for BinaryConfig<C> {
    open spec fn spec_struct_map(&self) -> bool {
        self.0.spec_struct_map()
    }

    open spec fn spec_variant_index(&self) -> bool {
        self.0.spec_variant_index()
    }

    open spec fn spec_human_readable(&self) -> bool {
        false
    }

    fn struct_map(&self) -> bool {
        self.0.struct_map()
    }

    fn variant_index(&self) -> bool {
        self.0.variant_index()
    }

    fn is_human_readable(&self) -> bool {
        false
    }
}

} // verus!
