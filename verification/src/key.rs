//! Keys that identify bound types.

use vstd::prelude::*;

verus! {

/// What a [`TypeKey`] stands for in contracts: the identity of a bound type
/// and the name under which diagnostics mention it.
pub struct KeyView {
    pub id: u64,
    pub name: Seq<char>,
}

/// Identifies a bound type. Two keys denote the same type exactly when their
/// ids are equal; the display name only serves diagnostics and cycle
/// detection.
#[derive(Debug)]
pub struct TypeKey {
    id: u64,
    name: String,
}

impl View for TypeKey {
    type V = KeyView;

    closed spec fn view(&self) -> KeyView {
        KeyView { id: self.id, name: self.name@ }
    }
}

impl Clone for TypeKey {
    fn clone(&self) -> (copy: Self)
        ensures
            copy@ == self@,
    {
        TypeKey { id: self.id, name: self.name.clone() }
    }
}

impl TypeKey {
    /// A key for the type with identity `id`, shown as `name`.
    pub fn new(id: u64, name: &str) -> (key: TypeKey)
        ensures
            key@ == (KeyView { id, name: name@ }),
    {
        TypeKey { id, name: name.to_owned() }
    }

    /// The identity of the type.
    pub fn id(&self) -> (id: u64)
        ensures
            id == self@.id,
    {
        self.id
    }

    /// The display name of the type.
    pub fn name(&self) -> (name: &String)
        ensures
            name@ == self@.name,
    {
        &self.name
    }

    /// Whether both keys denote the same type. Display names play no part.
    pub fn same_type(&self, other: &TypeKey) -> (same: bool)
        ensures
            same == (self@.id == other@.id),
    {
        self.id == other.id
    }
}

impl KeyView {
    /// The views of a sequence of keys, in order.
    pub open spec fn of_all(keys: Seq<TypeKey>) -> Seq<KeyView> {
        keys.map_values(|k: TypeKey| k@)
    }
}

/// Copies a list of keys.
pub fn clone_keys(keys: &Vec<TypeKey>) -> (copy: Vec<TypeKey>)
    ensures
        KeyView::of_all(copy@) == KeyView::of_all(keys@),
{
    let mut copy: Vec<TypeKey> = Vec::new();
    let mut i: usize = 0;
    while i < keys.len()
        invariant
            i <= keys@.len(),
            copy@.len() == i,
            forall|j: int| 0 <= j < i ==> copy@[j]@ == keys@[j]@,
        decreases keys@.len() - i,
    {
        copy.push(keys[i].clone());
        i += 1;
    }
    assert(KeyView::of_all(copy@) =~= KeyView::of_all(keys@));
    copy
}

} // verus!
