//! The closed set of tagged values carried by the CDC wire format.
//!
//! Every value is one of twenty-one variants, each with a stable one-byte
//! wire tag.  Floating-point payloads are held as their IEEE-754 binary64
//! bit patterns (`u64`), so that the codec is a pure function of bits; a
//! callable is held as its stable integer handle, resolved through the
//! encoder's callable registry.
use vstd::prelude::*;

verus! {

/// A list payload: a sequence of values.
pub type CdcList = Vec<CdcValue>;

/// A map payload: string-keyed pairs in insertion order, keys unique.
pub type CdcDict = Vec<(String, CdcValue)>;

/// An item of the server's item space: id, category and stage.
#[derive(Debug, Clone, PartialEq, Eq, Hash)]
pub struct Item {
    /// The unique identifier of the item.
    pub id: String,
    /// The category this item belongs to.
    pub category: i32,
    /// The stage this item is associated with.
    pub stage: i32,
}

/// A slice with optional start and stop indices; each slot is on the wire
/// either a None value or an Integer value.
#[derive(Debug, Clone, PartialEq)]
pub struct Slice {
    /// The start index of the slice (None if not specified).
    pub start: Option<i64>,
    /// The stop index of the slice (None if not specified).
    pub stop: Option<i64>,
}

/// An indexable handle: an item together with an access token and a size.
#[derive(Debug, Clone, PartialEq)]
pub struct Indexable {
    /// The item being indexed.
    pub item: Item,
    /// The access token for this indexable object.
    pub token: String,
    /// The size of the indexable collection.
    pub size: i64,
}

/// A named command.
#[derive(Debug, Clone, PartialEq)]
pub struct Command {
    /// The name of the command.
    pub name: String,
}

/// A typed error raised in the server-side runtime.
#[derive(Debug, Clone, PartialEq)]
pub struct CdcError {
    /// The identifier of the error.
    pub id: String,
    /// The error message.
    pub text: String,
    /// The source line the error points at.
    pub line: i64,
}

/// A generic type instance: an identifier with positional and keyword
/// arguments.
#[derive(Debug, PartialEq)]
pub struct Trait {
    /// The type identifier for this trait.
    pub id: String,
    /// Positional arguments.
    pub args: CdcList,
    /// Keyword arguments.
    pub kwargs: CdcDict,
}

/// A generic object: a type id, a printable representation and named
/// attributes.
#[derive(Debug, PartialEq)]
pub struct Object {
    /// The identifier of the object's type.
    pub type_id: String,
    /// The printable representation of the object.
    pub repr: String,
    /// The object's attributes, keys unique.
    pub attributes: CdcDict,
}

/// An array selector: a project and item value, a key, an index path, a
/// selected flag and an optional transformation value.
#[derive(Debug, PartialEq)]
pub struct Array {
    /// The project the array belongs to.
    pub project: Box<CdcValue>,
    /// The item the array belongs to.
    pub item: Box<CdcValue>,
    /// The data key.
    pub key: String,
    /// The index path.
    pub index: Vec<i64>,
    /// Whether the array is selected.
    pub selected: bool,
    /// An optional transformation value.
    pub transformation: Option<Box<CdcValue>>,
}

/// A package reference with named metadata.
#[derive(Debug, PartialEq)]
pub struct Package {
    /// The reference naming the package.
    pub reference: String,
    /// The package metadata, keys unique.
    pub metadata: CdcDict,
}

/// A two-component vector; each component is an IEEE-754 binary64 bit
/// pattern.
#[derive(Debug, Clone, PartialEq)]
pub struct Vec2d {
    /// Bit pattern of the first component.
    pub x: u64,
    /// Bit pattern of the second component.
    pub y: u64,
}

/// A three-component vector; each component is an IEEE-754 binary64 bit
/// pattern.
#[derive(Debug, Clone, PartialEq)]
pub struct Vec3d {
    /// Bit pattern of the first component.
    pub x: u64,
    /// Bit pattern of the second component.
    pub y: u64,
    /// Bit pattern of the third component.
    pub z: u64,
}

/// A value of the wire model.  The variant order follows the wire tags
/// 0 through 20.
#[derive(Debug, PartialEq)]
pub enum CdcValue {
    /// Tag 0: no value.
    NONE,
    /// Tag 1: a boolean.
    BOOL(bool),
    /// Tag 2: a signed 64-bit integer.
    INTEGER(i64),
    /// Tag 3: an IEEE-754 binary64 number, held as its bit pattern.
    FLOAT(u64),
    /// Tag 4: a UTF-8 string.
    STRING(String),
    /// Tag 5: a sequence of values.
    LIST(CdcList),
    /// Tag 6: string-keyed pairs, keys unique, order not part of the
    /// wire contract.
    MAP(CdcDict),
    /// Tag 7: a slice; each slot is None or an integer.
    SLICE(Slice),
    /// Tag 8: an item.
    ITEM(Item),
    /// Tag 9: an indexable handle around an item.
    INDEXABLE(Indexable),
    /// Tag 10: a named command.
    COMMAND(Command),
    /// Tag 11: a callable, held as its registry handle.
    CALLABLE(u64),
    /// Tag 12: a typed runtime error.
    ERROR(CdcError),
    /// Tag 13: a generic type instance.
    TRAIT(Trait),
    /// Tag 14: a generic object with attributes.
    OBJECT(Object),
    /// Tag 15: an array selector.
    ARRAY(Array),
    /// Tag 16: a package reference with metadata.
    PACKAGE(Package),
    /// Tag 17: a two-component vector of binary64 bit patterns.
    VEC2D(Vec2d),
    /// Tag 18: a three-component vector of binary64 bit patterns.
    VEC3D(Vec3d),
    /// Tag 19: a resource access marker, no payload.
    RESOURCE_ACCESS,
    /// Tag 20: an opaque byte string.
    BLOB(Vec<u8>),
}

/// The kind of a value, one per wire tag.
#[derive(Debug, Copy, Clone, Eq, PartialEq, Structural)]
pub enum CdcType {
    /// Tag 0.
    NONE,
    /// Tag 1.
    BOOLEAN,
    /// Tag 2.
    INTEGER,
    /// Tag 3.
    FLOAT,
    /// Tag 4.
    STRING,
    /// Tag 5.
    LIST,
    /// Tag 6.
    MAP,
    /// Tag 7.
    SLICE,
    /// Tag 8.
    ITEM,
    /// Tag 9.
    INDEXABLE,
    /// Tag 10.
    COMMAND,
    /// Tag 11.
    CALLABLE,
    /// Tag 12.
    ERROR,
    /// Tag 13.
    TRAIT,
    /// Tag 14.
    OBJECT,
    /// Tag 15.
    ARRAY,
    /// Tag 16.
    PACKAGE,
    /// Tag 17.
    VEC2D,
    /// Tag 18.
    VEC3D,
    /// Tag 19.
    RESOURCE_ACCESS,
    /// Tag 20.
    BLOB,
}

impl CdcType {
    /// The kind that classifies the given value.
    pub open spec fn of_value_spec(value: &CdcValue) -> CdcType {
        match value {
            CdcValue::NONE => CdcType::NONE,
            CdcValue::BOOL(_) => CdcType::BOOLEAN,
            CdcValue::INTEGER(_) => CdcType::INTEGER,
            CdcValue::FLOAT(_) => CdcType::FLOAT,
            CdcValue::STRING(_) => CdcType::STRING,
            CdcValue::LIST(_) => CdcType::LIST,
            CdcValue::MAP(_) => CdcType::MAP,
            CdcValue::SLICE(_) => CdcType::SLICE,
            CdcValue::ITEM(_) => CdcType::ITEM,
            CdcValue::INDEXABLE(_) => CdcType::INDEXABLE,
            CdcValue::COMMAND(_) => CdcType::COMMAND,
            CdcValue::CALLABLE(_) => CdcType::CALLABLE,
            CdcValue::ERROR(_) => CdcType::ERROR,
            CdcValue::TRAIT(_) => CdcType::TRAIT,
            CdcValue::OBJECT(_) => CdcType::OBJECT,
            CdcValue::ARRAY(_) => CdcType::ARRAY,
            CdcValue::PACKAGE(_) => CdcType::PACKAGE,
            CdcValue::VEC2D(_) => CdcType::VEC2D,
            CdcValue::VEC3D(_) => CdcType::VEC3D,
            CdcValue::RESOURCE_ACCESS => CdcType::RESOURCE_ACCESS,
            CdcValue::BLOB(_) => CdcType::BLOB,
        }
    }

    /// The one-byte wire tag of this kind, per the tag table.
    pub open spec fn tag_spec(self) -> u8 {
        match self {
            CdcType::NONE => 0,
            CdcType::BOOLEAN => 1,
            CdcType::INTEGER => 2,
            CdcType::FLOAT => 3,
            CdcType::STRING => 4,
            CdcType::LIST => 5,
            CdcType::MAP => 6,
            CdcType::SLICE => 7,
            CdcType::ITEM => 8,
            CdcType::INDEXABLE => 9,
            CdcType::COMMAND => 10,
            CdcType::CALLABLE => 11,
            CdcType::ERROR => 12,
            CdcType::TRAIT => 13,
            CdcType::OBJECT => 14,
            CdcType::ARRAY => 15,
            CdcType::PACKAGE => 16,
            CdcType::VEC2D => 17,
            CdcType::VEC3D => 18,
            CdcType::RESOURCE_ACCESS => 19,
            CdcType::BLOB => 20,
        }
    }

    /// The one-byte wire tag of this kind.
    #[verifier::when_used_as_spec(tag_spec)]
    pub fn tag(self) -> (r: u8)
        ensures
            r == self.tag_spec(),
    {
        match self {
            CdcType::NONE => 0,
            CdcType::BOOLEAN => 1,
            CdcType::INTEGER => 2,
            CdcType::FLOAT => 3,
            CdcType::STRING => 4,
            CdcType::LIST => 5,
            CdcType::MAP => 6,
            CdcType::SLICE => 7,
            CdcType::ITEM => 8,
            CdcType::INDEXABLE => 9,
            CdcType::COMMAND => 10,
            CdcType::CALLABLE => 11,
            CdcType::ERROR => 12,
            CdcType::TRAIT => 13,
            CdcType::OBJECT => 14,
            CdcType::ARRAY => 15,
            CdcType::PACKAGE => 16,
            CdcType::VEC2D => 17,
            CdcType::VEC3D => 18,
            CdcType::RESOURCE_ACCESS => 19,
            CdcType::BLOB => 20,
        }
    }
}

impl From<&CdcValue> for CdcType {
    /// The kind of the given value.
    fn from(value: &CdcValue) -> (r: Self)
        ensures
            r == CdcType::of_value_spec(value),
    {
        match value {
            CdcValue::NONE => CdcType::NONE,
            CdcValue::BOOL(_) => CdcType::BOOLEAN,
            CdcValue::INTEGER(_) => CdcType::INTEGER,
            CdcValue::FLOAT(_) => CdcType::FLOAT,
            CdcValue::STRING(_) => CdcType::STRING,
            CdcValue::LIST(_) => CdcType::LIST,
            CdcValue::MAP(_) => CdcType::MAP,
            CdcValue::SLICE(_) => CdcType::SLICE,
            CdcValue::ITEM(_) => CdcType::ITEM,
            CdcValue::INDEXABLE(_) => CdcType::INDEXABLE,
            CdcValue::COMMAND(_) => CdcType::COMMAND,
            CdcValue::CALLABLE(_) => CdcType::CALLABLE,
            CdcValue::ERROR(_) => CdcType::ERROR,
            CdcValue::TRAIT(_) => CdcType::TRAIT,
            CdcValue::OBJECT(_) => CdcType::OBJECT,
            CdcValue::ARRAY(_) => CdcType::ARRAY,
            CdcValue::PACKAGE(_) => CdcType::PACKAGE,
            CdcValue::VEC2D(_) => CdcType::VEC2D,
            CdcValue::VEC3D(_) => CdcType::VEC3D,
            CdcValue::RESOURCE_ACCESS => CdcType::RESOURCE_ACCESS,
            CdcValue::BLOB(_) => CdcType::BLOB,
        }
    }
}

impl vstd::std_specs::convert::FromSpecImpl<&CdcValue> for CdcType {
    open spec fn obeys_from_spec() -> bool {
        true
    }

    open spec fn from_spec(value: &CdcValue) -> CdcType {
        CdcType::of_value_spec(value)
    }
}

impl CdcValue {
    /// The one-byte wire tag of this value's variant.
    pub fn discriminant(&self) -> (r: u8)
        ensures
            r == CdcType::of_value_spec(self).tag_spec(),
    {
        CdcType::from(self).tag()
    }

    /// The boolean this value holds; for values of that variant only.
    pub fn expect_bool(self) -> (r: bool)
        requires
            self is BOOL,
        ensures
            self == CdcValue::BOOL(r),
    {
        match self {
            CdcValue::BOOL(b) => b,
            _ => unreached(),
        }
    }

    /// The integer this value holds; for values of that variant only.
    pub fn expect_int(self) -> (r: i64)
        requires
            self is INTEGER,
        ensures
            self == CdcValue::INTEGER(r),
    {
        match self {
            CdcValue::INTEGER(i) => i,
            _ => unreached(),
        }
    }

    /// The binary64 bit pattern this value holds; for values of that
    /// variant only.
    pub fn expect_float(self) -> (r: u64)
        requires
            self is FLOAT,
        ensures
            self == CdcValue::FLOAT(r),
    {
        match self {
            CdcValue::FLOAT(bits) => bits,
            _ => unreached(),
        }
    }

    /// The string this value holds; for values of that variant only.
    pub fn expect_string(self) -> (r: String)
        requires
            self is STRING,
        ensures
            self == CdcValue::STRING(r),
    {
        match self {
            CdcValue::STRING(st) => st,
            _ => unreached(),
        }
    }

    /// The list this value holds; for values of that variant only.
    pub fn expect_list(self) -> (r: CdcList)
        requires
            self is LIST,
        ensures
            self == CdcValue::LIST(r),
    {
        match self {
            CdcValue::LIST(es) => es,
            _ => unreached(),
        }
    }

    /// The map this value holds; for values of that variant only.
    pub fn expect_map(self) -> (r: CdcDict)
        requires
            self is MAP,
        ensures
            self == CdcValue::MAP(r),
    {
        match self {
            CdcValue::MAP(ps) => ps,
            _ => unreached(),
        }
    }

    /// The callable handle this value holds; for values of that
    /// variant only.
    pub fn expect_callable(self) -> (r: u64)
        requires
            self is CALLABLE,
        ensures
            self == CdcValue::CALLABLE(r),
    {
        match self {
            CdcValue::CALLABLE(h) => h,
            _ => unreached(),
        }
    }

    /// The two-component vector this value holds; for values of that
    /// variant only.
    pub fn expect_vec2d(self) -> (r: Vec2d)
        requires
            self is VEC2D,
        ensures
            self == CdcValue::VEC2D(r),
    {
        match self {
            CdcValue::VEC2D(v) => v,
            _ => unreached(),
        }
    }

    /// The three-component vector this value holds; for values of that
    /// variant only.
    pub fn expect_vec3d(self) -> (r: Vec3d)
        requires
            self is VEC3D,
        ensures
            self == CdcValue::VEC3D(r),
    {
        match self {
            CdcValue::VEC3D(v) => v,
            _ => unreached(),
        }
    }

    /// The command this value holds; for values of that variant only.
    pub fn expect_command(self) -> (r: Command)
        requires
            self is COMMAND,
        ensures
            self == CdcValue::COMMAND(r),
    {
        match self {
            CdcValue::COMMAND(c) => c,
            _ => unreached(),
        }
    }

    /// The byte string this value holds; for values of that variant
    /// only.
    pub fn expect_blob(self) -> (r: Vec<u8>)
        requires
            self is BLOB,
        ensures
            self == CdcValue::BLOB(r),
    {
        match self {
            CdcValue::BLOB(b) => b,
            _ => unreached(),
        }
    }

    /// The error record this value holds; for values of that variant
    /// only.
    pub fn expect_error(self) -> (r: CdcError)
        requires
            self is ERROR,
        ensures
            self == CdcValue::ERROR(r),
    {
        match self {
            CdcValue::ERROR(e) => e,
            _ => unreached(),
        }
    }

    /// The item this value holds; for values of that variant only.
    pub fn expect_item(self) -> (r: Item)
        requires
            self is ITEM,
        ensures
            self == CdcValue::ITEM(r),
    {
        match self {
            CdcValue::ITEM(it) => it,
            _ => unreached(),
        }
    }

    /// The slice this value holds; for values of that variant only.
    pub fn expect_slice(self) -> (r: Slice)
        requires
            self is SLICE,
        ensures
            self == CdcValue::SLICE(r),
    {
        match self {
            CdcValue::SLICE(sl) => sl,
            _ => unreached(),
        }
    }

    /// The indexable handle this value holds; for values of that
    /// variant only.
    pub fn expect_indexable(self) -> (r: Indexable)
        requires
            self is INDEXABLE,
        ensures
            self == CdcValue::INDEXABLE(r),
    {
        match self {
            CdcValue::INDEXABLE(ix) => ix,
            _ => unreached(),
        }
    }

    /// The trait instance this value holds; for values of that variant
    /// only.
    pub fn expect_trait(self) -> (r: Trait)
        requires
            self is TRAIT,
        ensures
            self == CdcValue::TRAIT(r),
    {
        match self {
            CdcValue::TRAIT(t) => t,
            _ => unreached(),
        }
    }

    /// The object this value holds; for values of that variant only.
    pub fn expect_object(self) -> (r: Object)
        requires
            self is OBJECT,
        ensures
            self == CdcValue::OBJECT(r),
    {
        match self {
            CdcValue::OBJECT(o) => o,
            _ => unreached(),
        }
    }

    /// The array selector this value holds; for values of that variant
    /// only.
    pub fn expect_array(self) -> (r: Array)
        requires
            self is ARRAY,
        ensures
            self == CdcValue::ARRAY(r),
    {
        match self {
            CdcValue::ARRAY(a) => a,
            _ => unreached(),
        }
    }

    /// The package this value holds; for values of that variant only.
    pub fn expect_package(self) -> (r: Package)
        requires
            self is PACKAGE,
        ensures
            self == CdcValue::PACKAGE(r),
    {
        match self {
            CdcValue::PACKAGE(p) => p,
            _ => unreached(),
        }
    }
}

} // verus!
