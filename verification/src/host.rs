//! The host-bridge backend: a marshaling layer that forwards every store
//! operation across a host-function boundary.
//!
//! The host's key-value facility appears here as `HostStore`, the reference
//! model of the seven entry points the bridge depends on: their contracts
//! state what `length`, `has_key`, `key`, `has_value`, `get`, `set`,
//! `remove` and `clear` do, over the same ordered-map model as the file
//! backend. The bridge functions below are what is verified against those
//! contracts: they marshal native strings into owning handles, derive weak
//! handles to pass across a call, consult the presence flag before
//! converting any returned object, and release each owning handle once its
//! call has returned. An absent object is never converted.

use vstd::prelude::*;
use crate::store::LocalStorage;
use crate::store::SpecEntry;
use crate::store::distinct_keys;
use crate::store::has_key;
use crate::store::spec_remove;
use crate::store::spec_set;
use crate::store::value_of;

verus! {

/// An owning handle to a host-side string object. The holder controls the
/// object's lifetime and must release the handle once its last call has
/// returned. The object carries a string only when the host marked it
/// present; only then may it be converted.
pub struct JsObject {
    value: Option<String>,
}

/// A weak handle: a borrow of an owning handle, valid only for the duration
/// of one host call and carrying no lifetime obligation.
#[derive(Clone, Copy)]
pub struct JsObjectWeak<'a> {
    owner: &'a JsObject,
}

impl View for JsObject {
    type V = Option<Seq<char>>;

    closed spec fn view(&self) -> Option<Seq<char>> {
        match self.value {
            Some(s) => Some(s@),
            None => None,
        }
    }
}

impl<'a> View for JsObjectWeak<'a> {
    type V = Option<Seq<char>>;

    closed spec fn view(&self) -> Option<Seq<char>> {
        self.owner.view()
    }
}

impl JsObject {
    /// Whether the host marked the object present, so that converting it is
    /// meaningful.
    pub open spec fn is_present(&self) -> bool {
        self@ is Some
    }

    /// Marshals a native string into an owning, present handle, as handing
    /// the string to the host does.
    pub fn string(s: &str) -> (r: JsObject)
        ensures
            r@ == Some(s@),
    {
        JsObject { value: Some(s.to_owned()) }
    }

    /// A weak handle on this object, to pass across one host call.
    pub fn weak(&self) -> (r: JsObjectWeak<'_>)
        ensures
            r@ == self@,
    {
        JsObjectWeak { owner: self }
    }

    /// Converts the object into `result`; only a present object may be
    /// converted.
    pub fn to_string(&self, result: &mut String)
        requires
            self.is_present(),
        ensures
            final(result)@ == self@.unwrap(),
    {
        let s = self.value.as_ref().unwrap();
        *result = s.clone();
    }

    /// Ends the handle's ownership of the host-side object.
    pub fn release(self) {
    }
}

/// Converts a host object and its sibling presence flag into an optional
/// native string: the flag decides, and an object the flag marked absent is
/// never converted.
pub fn js_to_option_string(object: JsObject, has: u32) -> (r: Option<String>)
    requires
        has == 1 ==> object.is_present(),
    ensures
        r is Some <==> has == 1,
        has == 1 ==> r.unwrap()@ == object@.unwrap(),
{
    if has == 1 {
        let mut result = String::new();
        object.to_string(&mut result);
        let out = Some(result);
        object.release();
        out
    } else {
        object.release();
        None
    }
}

/// The reference model of the host's key-value facility: one ordered map,
/// queried afresh on every call, never cached on this side of the boundary.
/// The bridge functions below are verified against these contracts; a
/// deployment substitutes the host's real entry points, which these methods
/// specify.
pub struct HostStore {
    table: LocalStorage,
}

impl View for HostStore {
    type V = Seq<SpecEntry>;

    closed spec fn view(&self) -> Seq<SpecEntry> {
        self.table@
    }
}

impl HostStore {
    /// The host's invariant: its keys are unique.
    pub open spec fn wf(&self) -> bool {
        distinct_keys(self@)
    }

    /// A host facility holding nothing.
    pub fn new() -> (r: Self)
        ensures
            r@ == Seq::<SpecEntry>::empty(),
            r.wf(),
    {
        HostStore { table: LocalStorage::new() }
    }

    /// Entry count.
    pub fn length(&self) -> (r: usize)
        ensures
            r == self@.len(),
    {
        self.table.len()
    }

    /// The flag that tells whether an entry occupies enumeration position
    /// `pos`.
    pub fn has_key(&self, pos: usize) -> (r: u32)
        ensures
            r == 1 <==> pos < self@.len(),
            r == 0 || r == 1,
    {
        if pos < self.table.len() {
            1
        } else {
            0
        }
    }

    /// The key object at position `pos`; present exactly when the sibling
    /// flag says an entry is there.
    pub fn key(&self, pos: usize) -> (r: JsObject)
        ensures
            pos < self@.len() ==> r@ == Some(self@[pos as int].0),
            pos >= self@.len() ==> r@ is None,
    {
        match self.table.key(pos) {
            Some(k) => JsObject::string(k.as_str()),
            None => JsObject { value: None },
        }
    }

    /// The flag that tells whether the key a weak handle carries is stored.
    pub fn has_value(&self, key: JsObjectWeak<'_>) -> (r: u32)
        requires
            self.wf(),
            key@ is Some,
        ensures
            r == 1 <==> has_key(self@, key@.unwrap()),
            r == 0 || r == 1,
    {
        let k = key.owner.value.as_ref().unwrap();
        match self.table.get(k.as_str()) {
            Some(_) => 1,
            None => 0,
        }
    }

    /// The value object for the key a weak handle carries; present exactly
    /// when the sibling flag says the key is stored.
    pub fn get(&self, key: JsObjectWeak<'_>) -> (r: JsObject)
        requires
            self.wf(),
            key@ is Some,
        ensures
            has_key(self@, key@.unwrap()) ==> r@ == Some(value_of(self@, key@.unwrap())),
            !has_key(self@, key@.unwrap()) ==> r@ is None,
    {
        let k = key.owner.value.as_ref().unwrap();
        match self.table.get(k.as_str()) {
            Some(v) => JsObject::string(v.as_str()),
            None => JsObject { value: None },
        }
    }

    /// Inserts or overwrites the entry for the key a weak handle carries.
    pub fn set(&mut self, key: JsObjectWeak<'_>, value: JsObjectWeak<'_>)
        requires
            old(self).wf(),
            key@ is Some,
            value@ is Some,
        ensures
            final(self)@ == spec_set(old(self)@, key@.unwrap(), value@.unwrap()),
            final(self).wf(),
    {
        let k = key.owner.value.as_ref().unwrap().clone();
        let v = value.owner.value.as_ref().unwrap().clone();
        self.table.set(k.as_str(), v.as_str());
    }

    /// Deletes the entry for the key a weak handle carries, if any.
    pub fn remove(&mut self, key: JsObjectWeak<'_>)
        requires
            old(self).wf(),
            key@ is Some,
        ensures
            final(self)@ == spec_remove(old(self)@, key@.unwrap()),
            final(self).wf(),
    {
        let k = key.owner.value.as_ref().unwrap().clone();
        self.table.remove(k.as_str());
    }

    /// Deletes every entry.
    pub fn clear(&mut self)
        ensures
            final(self)@ == Seq::<SpecEntry>::empty(),
            final(self).wf(),
    {
        self.table.clear();
    }
}

/// Number of entries in the host's storage.
pub fn len(host: &HostStore) -> (r: usize)
    ensures
        r == host@.len(),
{
    host.length()
}

/// Key by its enumeration position: the key object and its presence flag are
/// fetched side by side, and the flag decides the conversion.
pub fn key(host: &HostStore, pos: usize) -> (r: Option<String>)
    ensures
        pos < host@.len() ==> r is Some && r.unwrap()@ == host@[pos as int].0,
        pos >= host@.len() ==> r is None,
{
    js_to_option_string(host.key(pos), host.has_key(pos))
}

/// Entry by key, if any: the key is marshaled into an owning handle, a weak
/// handle crosses the two calls, and the owning handle is released after
/// them.
pub fn get(host: &HostStore, key: &str) -> (r: Option<String>)
    requires
        host.wf(),
    ensures
        match r {
            Some(v) => has_key(host@, key@) && v@ == value_of(host@, key@),
            None => !has_key(host@, key@),
        },
{
    let object = JsObject::string(key);
    let weak_object = object.weak();
    let value = host.get(weak_object);
    let has = host.has_value(weak_object);
    let result = js_to_option_string(value, has);
    object.release();
    result
}

/// Inserts or overwrites an entry in the host's storage.
pub fn set(host: &mut HostStore, key: &str, value: &str)
    requires
        old(host).wf(),
    ensures
        final(host)@ == spec_set(old(host)@, key@, value@),
        final(host).wf(),
{
    let key_object = JsObject::string(key);
    let value_object = JsObject::string(value);
    host.set(key_object.weak(), value_object.weak());
    key_object.release();
    value_object.release();
}

/// Removes an entry from the host's storage.
pub fn remove(host: &mut HostStore, key: &str)
    requires
        old(host).wf(),
    ensures
        final(host)@ == spec_remove(old(host)@, key@),
        final(host).wf(),
{
    let key_object = JsObject::string(key);
    host.remove(key_object.weak());
    key_object.release();
}

/// Removes every entry from the host's storage.
pub fn clear(host: &mut HostStore)
    ensures
        final(host)@ == Seq::<SpecEntry>::empty(),
        final(host).wf(),
{
    host.clear();
}

} // verus!
