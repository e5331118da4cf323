//! Typed attribute streams: a named array of values with a scope.

use vstd::prelude::*;
use crate::text::{decimal_chars, push_all, push_str_chars, spec_decimal, string_from_chars};

verus! {

/// Where an attribute lives on a geometry.
#[derive(Clone, Copy, Debug, PartialEq, Eq, Hash, Structural)]
pub enum AttributeScope {
    /// One value per point (the most common).
    Point,
    /// One value per vertex (split attributes at edges).
    Vertex,
    /// One value per primitive/face.
    Primitive,
    /// A single value for the entire geometry.
    Detail,
}

impl Default for AttributeScope {
    /// Point scope.
    fn default() -> (s: Self)
        ensures
            s == AttributeScope::Point,
    {
        AttributeScope::Point
    }
}

/// A named array of values of type `T` with a scope.
#[derive(Clone, Debug)]
pub struct Attribute<T: Clone> {
    pub name: String,
    pub data: Vec<T>,
    pub scope: AttributeScope,
}

/// `Index <i> out of bounds (len: <n>)`.
pub open spec fn out_of_bounds_message(i: nat, n: nat) -> Seq<char> {
    "Index "@ + spec_decimal(i) + " out of bounds (len: "@ + spec_decimal(n) + ")"@
}

/// `Attribute length mismatch: <a> has <n>, <b> has <m>`.
pub open spec fn length_mismatch_message(a: Seq<char>, n: nat, b: Seq<char>, m: nat) -> Seq<char> {
    "Attribute length mismatch: "@ + a + " has "@ + spec_decimal(n) + ", "@ + b + " has "@ + spec_decimal(m)
}

impl<T: Clone> Attribute<T> {
    /// A point-scoped attribute.
    pub fn new(name: &str, data: Vec<T>) -> (a: Self)
        ensures
            a.name@ == name@,
            a.data == data,
            a.scope == AttributeScope::Point,
    {
        Attribute { name: String::from_str(name), data, scope: AttributeScope::Point }
    }

    /// An attribute with an explicit scope.
    pub fn new_with_scope(name: &str, data: Vec<T>, scope: AttributeScope) -> (a: Self)
        ensures
            a.name@ == name@,
            a.data == data,
            a.scope == scope,
    {
        Attribute { name: String::from_str(name), data, scope }
    }

    /// Number of elements.
    pub fn len(&self) -> (n: usize)
        ensures
            n == self.data@.len(),
    {
        self.data.len()
    }

    /// Whether there are no elements.
    pub fn is_empty(&self) -> (b: bool)
        ensures
            b == (self.data@.len() == 0),
    {
        self.data.len() == 0
    }

    /// The same attribute with another scope.
    pub fn with_scope(self, scope: AttributeScope) -> (a: Self)
        ensures
            a.name == self.name,
            a.data == self.data,
            a.scope == scope,
    {
        let mut a = self;
        a.scope = scope;
        a
    }

    /// The element at `index`, if there is one.
    pub fn get(&self, index: usize) -> (r: Option<&T>)
        ensures
            index < self.data@.len() ==> r == Some(&self.data@[index as int]),
            index >= self.data@.len() ==> r is None,
    {
        if index < self.data.len() {
            Some(&self.data[index])
        } else {
            None
        }
    }

    /// Replaces the element at `index`; an index past the end is an error
    /// and changes nothing.
    pub fn set(&mut self, index: usize, value: T) -> (r: Result<(), String>)
        ensures
            index < old(self).data@.len() ==> r is Ok && final(self).data@ == old(self).data@.update(
                index as int,
                value,
            ),
            index >= old(self).data@.len() ==> (r matches Err(m) && m@ == out_of_bounds_message(
                index as nat,
                old(self).data@.len(),
            ) && final(self).data == old(self).data),
            final(self).name == old(self).name,
            final(self).scope == old(self).scope,
    {
        if index < self.data.len() {
            self.data.set(index, value);
            Ok(())
        } else {
            let mut v: Vec<char> = Vec::new();
            push_str_chars(&mut v, "Index ");
            let a = decimal_chars(index);
            push_all(&mut v, &a);
            push_str_chars(&mut v, " out of bounds (len: ");
            let b = decimal_chars(self.data.len());
            push_all(&mut v, &b);
            push_str_chars(&mut v, ")");
            assert(v@ =~= out_of_bounds_message(index as nat, self.data@.len()));
            Err(string_from_chars(&v))
        }
    }

    /// A new attribute with the same name and scope whose elements are `f`
    /// applied to each element.
    pub fn map<U: Clone, F: Fn(&T) -> U>(&self, f: F) -> (r: Attribute<U>)
        requires
            forall|i: int| 0 <= i < self.data@.len() ==> call_requires(f, (&self.data@[i],)),
        ensures
            r.name@ == self.name@,
            r.scope == self.scope,
            r.data@.len() == self.data@.len(),
            forall|i: int| 0 <= i < self.data@.len() ==> call_ensures(f, (&self.data@[i],), #[trigger] r.data@[i]),
    {
        let mut data: Vec<U> = Vec::new();
        let mut i: usize = 0;
        while i < self.data.len()
            invariant
                i <= self.data@.len(),
                data@.len() == i,
                forall|j: int| 0 <= j < self.data@.len() ==> call_requires(f, (&self.data@[j],)),
                forall|j: int| 0 <= j < i ==> call_ensures(f, (&self.data@[j],), #[trigger] data@[j]),
            decreases self.data@.len() - i,
        {
            let u = f(&self.data[i]);
            data.push(u);
            i = i + 1;
        }
        Attribute { name: self.name.clone(), data, scope: self.scope }
    }

    /// A new attribute with this one's name and scope whose elements are `f`
    /// applied to corresponding elements of both; attributes of different
    /// lengths are an error.
    pub fn zip_map<U: Clone, W: Clone, F: Fn(&T, &U) -> W>(&self, other: &Attribute<U>, f: F) -> (r: Result<Attribute<W>, String>)
        requires
            self.data@.len() == other.data@.len() ==> forall|i: int|
                0 <= i < self.data@.len() ==> call_requires(f, (&self.data@[i], &other.data@[i])),
        ensures
            self.data@.len() != other.data@.len() ==> (r matches Err(m) && m@ == length_mismatch_message(
                self.name@,
                self.data@.len(),
                other.name@,
                other.data@.len(),
            )),
            self.data@.len() == other.data@.len() ==> (r matches Ok(a) && {
                &&& a.name@ == self.name@
                &&& a.scope == self.scope
                &&& a.data@.len() == self.data@.len()
                &&& forall|i: int|
                    0 <= i < self.data@.len() ==> call_ensures(
                        f,
                        (&self.data@[i], &other.data@[i]),
                        #[trigger] a.data@[i],
                    )
            }),
    {
        if self.data.len() != other.data.len() {
            let mut v: Vec<char> = Vec::new();
            push_str_chars(&mut v, "Attribute length mismatch: ");
            push_str_chars(&mut v, self.name.as_str());
            push_str_chars(&mut v, " has ");
            let a = decimal_chars(self.data.len());
            push_all(&mut v, &a);
            push_str_chars(&mut v, ", ");
            push_str_chars(&mut v, other.name.as_str());
            push_str_chars(&mut v, " has ");
            let b = decimal_chars(other.data.len());
            push_all(&mut v, &b);
            assert(v@ =~= length_mismatch_message(self.name@, self.data@.len(), other.name@, other.data@.len()));
            return Err(string_from_chars(&v));
        }
        let mut data: Vec<W> = Vec::new();
        let mut i: usize = 0;
        while i < self.data.len()
            invariant
                i <= self.data@.len(),
                self.data@.len() == other.data@.len(),
                data@.len() == i,
                forall|j: int| 0 <= j < self.data@.len() ==> call_requires(f, (&self.data@[j], &other.data@[j])),
                forall|j: int| 0 <= j < i ==> call_ensures(f, (&self.data@[j], &other.data@[j]), #[trigger] data@[j]),
            decreases self.data@.len() - i,
        {
            let w = f(&self.data[i], &other.data[i]);
            data.push(w);
            i = i + 1;
        }
        Ok(Attribute { name: self.name.clone(), data, scope: self.scope })
    }
}

} // verus!
