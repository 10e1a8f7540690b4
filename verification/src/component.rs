//! Component identities and component values.
//!
//! A component identity is a (name, semantic version) pair; two components
//! name the same storable resource exactly when both parts match. A component
//! value carries an identity together with a typed payload.

use vstd::prelude::*;

verus! {

/// A semantic version. Two versions are the same exactly when all three
/// numbers match.
#[derive(Clone, Copy, Debug, PartialEq, Eq, Hash, Structural)]
pub struct Version {
    pub major: u64,
    pub minor: u64,
    pub patch: u64,
}

impl Version {
    pub fn new(major: u64, minor: u64, patch: u64) -> (r: Version)
        ensures
            r == (Version { major, minor, patch }),
    {
        Version { major, minor, patch }
    }
}

/// The mathematical form of a component identity: the name's characters and
/// the version.
pub struct KeyView {
    pub name: Seq<char>,
    pub version: Version,
}

/// A component identity: a (name, version) pair naming a storable, typed
/// record kind.
#[derive(Clone, Debug, PartialEq, Eq)]
pub struct ComponentId {
    pub name: String,
    pub version: Version,
}

impl View for ComponentId {
    type V = KeyView;

    open spec fn view(&self) -> KeyView {
        KeyView { name: self.name@, version: self.version }
    }
}

impl ComponentId {
    pub fn new(name: &str, version: Version) -> (r: ComponentId)
        ensures
            r@ == (KeyView { name: name@, version }),
    {
        ComponentId { name: name.to_owned(), version }
    }

    /// Whether two identities name the same storable resource: both the name
    /// and the version match.
    pub fn same_as(&self, other: &ComponentId) -> (r: bool)
        ensures
            r == (self@ == other@),
    {
        let names_equal = self.name == other.name;
        let versions_equal = self.version.major == other.version.major
            && self.version.minor == other.version.minor
            && self.version.patch == other.version.patch;
        names_equal && versions_equal
    }
}

/// The mathematical form of a typed payload.
pub enum DataView {
    Int(u64),
    Text(Seq<char>),
}

/// A typed component payload: an unsigned integer or a text value.
#[derive(Clone, Debug, PartialEq, Eq)]
pub enum DataValue {
    Int(u64),
    Text(String),
}

impl View for DataValue {
    type V = DataView;

    open spec fn view(&self) -> DataView {
        match self {
            DataValue::Int(n) => DataView::Int(*n),
            DataValue::Text(s) => DataView::Text(s@),
        }
    }
}

/// The mathematical form of a component value.
pub struct ValueView {
    pub key: KeyView,
    pub data: DataView,
}

/// A typed record carrying a component identity and a payload.
#[derive(Clone, Debug, PartialEq, Eq)]
pub struct ComponentValue {
    pub id: ComponentId,
    pub data: DataValue,
}

impl View for ComponentValue {
    type V = ValueView;

    open spec fn view(&self) -> ValueView {
        ValueView { key: self.id@, data: self.data@ }
    }
}

impl DeepView for ComponentValue {
    type V = ValueView;

    open spec fn deep_view(&self) -> ValueView {
        self.view()
    }
}

impl ComponentValue {
    pub fn new(id: ComponentId, data: DataValue) -> (r: ComponentValue)
        ensures
            r@ == (ValueView { key: id@, data: data@ }),
    {
        ComponentValue { id, data }
    }
}

/// A value that knows its own component identity. The identity acts as an
/// opaque constant supplied by the component's author; the engine never
/// generates one itself.
pub trait Component {
    /// The component identity, in its mathematical form.
    spec fn key(&self) -> KeyView;

    /// The component's name.
    fn name(&self) -> (r: String)
        ensures
            r@ == self.key().name,
    ;

    /// The component's version.
    fn version(&self) -> (r: Version)
        ensures
            r == self.key().version,
    ;
}

impl Component for ComponentValue {
    open spec fn key(&self) -> KeyView {
        self.id@
    }

    fn name(&self) -> (r: String) {
        self.id.name.clone()
    }

    fn version(&self) -> (r: Version) {
        self.id.version
    }
}

} // verus!
