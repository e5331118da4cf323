//! The geometry a subnet works on: points (of vector type `V`), their
//! connectivity, and named float, vector and integer streams; and the
//! evaluation context that holds it with the geometries handed in.

use vstd::prelude::*;
use crate::attribute::{Attribute, AttributeScope};
use crate::text::{push_str_chars, string_from_chars, str_equal};
use crate::topology::Topology;
use crate::subnet::{attribute_missing, attribute_missing_message};

verus! {

/// A typed attribute stream.
#[derive(Clone, Debug)]
pub enum AttributeData<F: Clone, V: Clone> {
    Float(Attribute<F>),
    Vec3(Attribute<V>),
    Int(Attribute<i32>),
}

/// The name of a stream.
pub open spec fn data_name<F: Clone, V: Clone>(a: AttributeData<F, V>) -> Seq<char> {
    match a {
        AttributeData::Float(x) => x.name@,
        AttributeData::Vec3(x) => x.name@,
        AttributeData::Int(x) => x.name@,
    }
}

impl<F: Clone, V: Clone> AttributeData<F, V> {
    /// The stream's name.
    pub fn name(&self) -> (s: &str)
        ensures
            s@ == data_name(*self),
    {
        match self {
            AttributeData::Float(a) => a.name.as_str(),
            AttributeData::Vec3(a) => a.name.as_str(),
            AttributeData::Int(a) => a.name.as_str(),
        }
    }

    /// The number of values.
    pub fn len(&self) -> (n: usize)
        ensures
            n == match *self {
                AttributeData::Float(a) => a.data@.len(),
                AttributeData::Vec3(a) => a.data@.len(),
                AttributeData::Int(a) => a.data@.len(),
            },
    {
        match self {
            AttributeData::Float(a) => a.data.len(),
            AttributeData::Vec3(a) => a.data.len(),
            AttributeData::Int(a) => a.data.len(),
        }
    }

    /// The stream's scope.
    pub fn scope(&self) -> (sc: AttributeScope)
        ensures
            sc == match *self {
                AttributeData::Float(a) => a.scope,
                AttributeData::Vec3(a) => a.scope,
                AttributeData::Int(a) => a.scope,
            },
    {
        match self {
            AttributeData::Float(a) => a.scope,
            AttributeData::Vec3(a) => a.scope,
            AttributeData::Int(a) => a.scope,
        }
    }

    /// Whether the stream holds no value.
    pub fn is_empty(&self) -> (b: bool)
        ensures
            b == match *self {
                AttributeData::Float(a) => a.data@.len() == 0,
                AttributeData::Vec3(a) => a.data@.len() == 0,
                AttributeData::Int(a) => a.data@.len() == 0,
            },
    {
        self.len() == 0
    }

    /// The float stream, if it is one.
    pub fn as_float(&self) -> (r: Option<&Attribute<F>>)
        ensures
            match *self {
                AttributeData::Float(a) => r == Some(&a),
                _ => r is None,
            },
    {
        match self {
            AttributeData::Float(a) => Some(a),
            _ => None,
        }
    }

    /// The vector stream, if it is one.
    pub fn as_vec3(&self) -> (r: Option<&Attribute<V>>)
        ensures
            match *self {
                AttributeData::Vec3(a) => r == Some(&a),
                _ => r is None,
            },
    {
        match self {
            AttributeData::Vec3(a) => Some(a),
            _ => None,
        }
    }

    /// The integer stream, if it is one.
    pub fn as_int(&self) -> (r: Option<&Attribute<i32>>)
        ensures
            match *self {
                AttributeData::Int(a) => r == Some(&a),
                _ => r is None,
            },
    {
        match self {
            AttributeData::Int(a) => Some(a),
            _ => None,
        }
    }
}

/// Index of the first stream named `name` at or after `j`, or the number of
/// streams.
pub open spec fn attr_index<F: Clone, V: Clone>(attrs: Seq<AttributeData<F, V>>, name: Seq<char>, j: int) -> int
    decreases attrs.len() - j,
{
    if j < 0 || j >= attrs.len() {
        attrs.len() as int
    } else if data_name(attrs[j]) == name {
        j
    } else {
        attr_index(attrs, name, j + 1)
    }
}

proof fn lemma_attr_index<F: Clone, V: Clone>(attrs: Seq<AttributeData<F, V>>, name: Seq<char>, j: int)
    requires
        0 <= j <= attrs.len(),
    ensures
        j <= attr_index(attrs, name, j) <= attrs.len(),
        attr_index(attrs, name, j) < attrs.len() ==> data_name(attrs[attr_index(attrs, name, j)]) == name,
    decreases attrs.len() - j,
{
    if j < attrs.len() && data_name(attrs[j]) != name {
        lemma_attr_index(attrs, name, j + 1);
    }
}

fn find_attr<F: Clone, V: Clone>(attrs: &Vec<AttributeData<F, V>>, name: &str) -> (k: usize)
    ensures
        k == attr_index(attrs@, name@, 0),
        k <= attrs@.len(),
        k < attrs@.len() ==> data_name(attrs@[k as int]) == name@,
{
    proof {
        lemma_attr_index(attrs@, name@, 0);
    }
    let mut k: usize = 0;
    while k < attrs.len()
        invariant
            k <= attrs@.len(),
            attr_index(attrs@, name@, k as int) == attr_index(attrs@, name@, 0),
        decreases attrs@.len() - k,
    {
        if str_equal(attrs[k].name(), name) {
            return k;
        }
        k = k + 1;
    }
    k
}

/// A copy of a list of values.
fn copy_values<T: Copy>(v: &Vec<T>) -> (c: Vec<T>)
    ensures
        c@ == v@,
{
    let mut c: Vec<T> = Vec::new();
    let mut i: usize = 0;
    while i < v.len()
        invariant
            i <= v@.len(),
            c@ == v@.take(i as int),
        decreases v@.len() - i,
    {
        c.push(v[i]);
        i = i + 1;
        assert(c@ =~= v@.take(i as int));
    }
    assert(v@.take(i as int) =~= v@);
    c
}

/// Points, their connectivity, and named streams.
#[derive(Clone, Debug)]
pub struct Geometry<F: Clone, V: Clone> {
    pub points: Vec<V>,
    pub topology: Topology,
    pub attributes: Vec<AttributeData<F, V>>,
}

/// `attrs` after storing `a`: it replaces the first stream of its name, or
/// is appended.
pub open spec fn stored<F: Clone, V: Clone>(attrs: Seq<AttributeData<F, V>>, a: AttributeData<F, V>) -> Seq<AttributeData<F, V>> {
    let k = attr_index(attrs, data_name(a), 0);
    if k < attrs.len() {
        attrs.update(k, a)
    } else {
        attrs.push(a)
    }
}

impl<F: Clone, V: Clone> Geometry<F, V> {
    /// A point cloud with no streams.
    pub fn from_points(points: Vec<V>) -> (g: Self)
        ensures
            g.points == points,
            g.topology is Points,
            g.attributes@.len() == 0,
    {
        Geometry { points, topology: Topology::points(), attributes: Vec::new() }
    }

    /// A triangle mesh with no streams.
    pub fn from_triangles(points: Vec<V>, indices: Vec<usize>) -> (g: Self)
        ensures
            g.points == points,
            g.topology.is_uniform_polymesh(indices@, 3),
            g.attributes@.len() == 0,
    {
        Geometry { points, topology: Topology::triangles(indices), attributes: Vec::new() }
    }

    /// The number of points.
    pub fn point_count(&self) -> (n: usize)
        ensures
            n == self.points@.len(),
    {
        self.points.len()
    }

    /// An empty point cloud.
    pub fn new() -> (g: Self)
        ensures
            g.points@.len() == 0,
            g.topology is Points,
            g.attributes@.len() == 0,
    {
        Geometry { points: Vec::new(), topology: Topology::points(), attributes: Vec::new() }
    }

    /// The number of primitives of the topology.
    pub fn primitive_count(&self) -> (n: usize)
        ensures
            n == self.topology.spec_primitive_count(),
    {
        self.topology.primitive_count()
    }

    /// Stores a float stream.
    pub fn set_float_attribute(&mut self, a: Attribute<F>)
        ensures
            final(self).attributes@ == stored(old(self).attributes@, AttributeData::Float(a)),
            final(self).points == old(self).points,
            final(self).topology == old(self).topology,
    {
        self.set_attribute(AttributeData::Float(a));
    }

    /// Stores a vector stream.
    pub fn set_vec3_attribute(&mut self, a: Attribute<V>)
        ensures
            final(self).attributes@ == stored(old(self).attributes@, AttributeData::Vec3(a)),
            final(self).points == old(self).points,
            final(self).topology == old(self).topology,
    {
        self.set_attribute(AttributeData::Vec3(a));
    }

    /// Stores an integer stream.
    pub fn set_int_attribute(&mut self, a: Attribute<i32>)
        ensures
            final(self).attributes@ == stored(old(self).attributes@, AttributeData::Int(a)),
            final(self).points == old(self).points,
            final(self).topology == old(self).topology,
    {
        self.set_attribute(AttributeData::Int(a));
    }

    /// The float stream `name`, if the stream of that name is one.
    pub fn get_float_attribute(&self, name: &str) -> (r: Option<&Attribute<F>>)
        ensures
            ({
                let k = attr_index(self.attributes@, name@, 0);
                if k < self.attributes@.len() && self.attributes@[k] is Float {
                    r == Some(&self.attributes@[k]->Float_0)
                } else {
                    r is None
                }
            }),
    {
        let k = find_attr(&self.attributes, name);
        if k < self.attributes.len() {
            return self.attributes[k].as_float();
        }
        None
    }

    /// The vector stream `name`, if the stream of that name is one.
    pub fn get_vec3_attribute(&self, name: &str) -> (r: Option<&Attribute<V>>)
        ensures
            ({
                let k = attr_index(self.attributes@, name@, 0);
                if k < self.attributes@.len() && self.attributes@[k] is Vec3 {
                    r == Some(&self.attributes@[k]->Vec3_0)
                } else {
                    r is None
                }
            }),
    {
        let k = find_attr(&self.attributes, name);
        if k < self.attributes.len() {
            return self.attributes[k].as_vec3();
        }
        None
    }

    /// The integer stream `name`, if the stream of that name is one.
    pub fn get_int_attribute(&self, name: &str) -> (r: Option<&Attribute<i32>>)
        ensures
            ({
                let k = attr_index(self.attributes@, name@, 0);
                if k < self.attributes@.len() && self.attributes@[k] is Int {
                    r == Some(&self.attributes@[k]->Int_0)
                } else {
                    r is None
                }
            }),
    {
        let k = find_attr(&self.attributes, name);
        if k < self.attributes.len() {
            return self.attributes[k].as_int();
        }
        None
    }

    /// Removes the stream named `name` and returns it, if there is one.
    pub fn remove_attribute(&mut self, name: &str) -> (r: Option<AttributeData<F, V>>)
        ensures
            ({
                let k = attr_index(old(self).attributes@, name@, 0);
                if k < old(self).attributes@.len() {
                    r == Some(old(self).attributes@[k]) && final(self).attributes@ == old(self).attributes@.remove(k)
                } else {
                    r is None && final(self).attributes@ == old(self).attributes@
                }
            }),
            final(self).points == old(self).points,
            final(self).topology == old(self).topology,
    {
        let k = find_attr(&self.attributes, name);
        if k < self.attributes.len() {
            Some(self.attributes.remove(k))
        } else {
            None
        }
    }

    /// The names of the streams, in storage order.
    pub fn attribute_names(&self) -> (names: Vec<String>)
        ensures
            names@.len() == self.attributes@.len(),
            forall|i: int| 0 <= i < names@.len() ==> #[trigger] names@[i]@ == data_name(self.attributes@[i]),
    {
        let mut names: Vec<String> = Vec::new();
        let mut i: usize = 0;
        while i < self.attributes.len()
            invariant
                i <= self.attributes@.len(),
                names@.len() == i,
                forall|q: int| 0 <= q < i ==> #[trigger] names@[q]@ == data_name(self.attributes@[q]),
            decreases self.attributes@.len() - i,
        {
            names.push(String::from_str(self.attributes[i].name()));
            i = i + 1;
        }
        names
    }

    /// Stores a stream, replacing the one of the same name.
    pub fn set_attribute(&mut self, a: AttributeData<F, V>)
        ensures
            final(self).attributes@ == stored(old(self).attributes@, a),
            final(self).points == old(self).points,
            final(self).topology == old(self).topology,
    {
        let k = find_attr(&self.attributes, a.name());
        if k < self.attributes.len() {
            self.attributes.set(k, a);
        } else {
            self.attributes.push(a);
        }
    }

    /// Whether a stream named `name` is stored.
    pub fn has_attribute(&self, name: &str) -> (b: bool)
        ensures
            b == (attr_index(self.attributes@, name@, 0) < self.attributes@.len()),
    {
        find_attr(&self.attributes, name) < self.attributes.len()
    }

    /// Drops every stream.
    pub fn clear_attributes(&mut self)
        ensures
            final(self).attributes@.len() == 0,
            final(self).points == old(self).points,
            final(self).topology == old(self).topology,
    {
        self.attributes.clear();
    }
}

impl<F: Clone, V: Copy> Geometry<F, V> {
    /// The positions as the stream `P`.
    pub fn get_p(&self) -> (a: Attribute<V>)
        ensures
            a.name@ == "P"@,
            a.data@ == self.points@,
            a.scope == AttributeScope::Point,
    {
        Attribute::new("P", copy_values(&self.points))
    }

    /// Sets the positions from a stream.
    pub fn set_p(&mut self, a: &Attribute<V>)
        ensures
            final(self).points@ == a.data@,
            final(self).topology == old(self).topology,
            final(self).attributes == old(self).attributes,
    {
        self.points = copy_values(&a.data);
    }
}

/// `Use get_vec3 for P (position) attribute`.
pub open spec fn position_message() -> Seq<char> {
    "Use get_vec3 for P (position) attribute"@
}

/// `Attribute '<name>' not found or wrong type (expected <kind>)`.
pub open spec fn missing_message(name: Seq<char>, kind: Seq<char>) -> Seq<char> {
    "Attribute '"@ + name + "' not found or wrong type (expected "@ + kind + ")"@
}

fn missing(name: &str, kind: &str) -> (s: String)
    ensures
        s@ == missing_message(name@, kind@),
{
    let mut v: Vec<char> = Vec::new();
    push_str_chars(&mut v, "Attribute '");
    push_str_chars(&mut v, name);
    push_str_chars(&mut v, "' not found or wrong type (expected ");
    push_str_chars(&mut v, kind);
    push_str_chars(&mut v, ")");
    string_from_chars(&v)
}

/// The geometry being processed and the geometries handed in from outside,
/// by name.
#[derive(Clone, Debug)]
pub struct ExecutionContext<F: Clone, V: Clone> {
    pub geometry: Geometry<F, V>,
    pub external_geometry: Vec<(String, Geometry<F, V>)>,
}

/// Index of the first geometry named `name`, or the number of geometries.
pub open spec fn external_index<F: Clone, V: Clone>(ext: Seq<(String, Geometry<F, V>)>, name: Seq<char>, j: int) -> int
    decreases ext.len() - j,
{
    if j < 0 || j >= ext.len() {
        ext.len() as int
    } else if ext[j].0@ == name {
        j
    } else {
        external_index(ext, name, j + 1)
    }
}

impl<F: Clone, V: Clone> ExecutionContext<F, V> {
    /// A context processing an empty geometry, with nothing handed in.
    pub fn new() -> (c: Self)
        ensures
            c.geometry.points@.len() == 0,
            c.geometry.topology is Points,
            c.geometry.attributes@.len() == 0,
            c.external_geometry@.len() == 0,
    {
        ExecutionContext { geometry: Geometry::new(), external_geometry: Vec::new() }
    }

    /// A context processing `geometry`, with nothing handed in.
    pub fn from_geometry(geometry: Geometry<F, V>) -> (c: Self)
        ensures
            c.geometry == geometry,
            c.external_geometry@.len() == 0,
    {
        ExecutionContext { geometry, external_geometry: Vec::new() }
    }

    /// Hands in `geo` under `name`, replacing a geometry of that name.
    pub fn add_external_geometry(&mut self, name: String, geo: Geometry<F, V>)
        ensures
            ({
                let k = external_index(old(self).external_geometry@, name@, 0);
                final(self).external_geometry@ == if k < old(self).external_geometry@.len() {
                    old(self).external_geometry@.update(k, (name, geo))
                } else {
                    old(self).external_geometry@.push((name, geo))
                }
            }),
            final(self).geometry == old(self).geometry,
    {
        let ghost e0 = self.external_geometry@;
        let mut k: usize = 0;
        while k < self.external_geometry.len()
            invariant
                k <= e0.len(),
                self.external_geometry@ == e0,
                e0 == old(self).external_geometry@,
                self.geometry == old(self).geometry,
                external_index(e0, name@, k as int) == external_index(e0, name@, 0),
            decreases e0.len() - k,
        {
            if str_equal(self.external_geometry[k].0.as_str(), name.as_str()) {
                self.external_geometry.set(k, (name, geo));
                return;
            }
            k = k + 1;
        }
        self.external_geometry.push((name, geo));
    }

    /// The geometry handed in under `name`, if any.
    pub fn get_external_geometry(&self, name: &str) -> (r: Option<&Geometry<F, V>>)
        ensures
            ({
                let k = external_index(self.external_geometry@, name@, 0);
                if k < self.external_geometry@.len() {
                    r == Some(&self.external_geometry@[k].1)
                } else {
                    r is None
                }
            }),
    {
        let mut k: usize = 0;
        while k < self.external_geometry.len()
            invariant
                k <= self.external_geometry@.len(),
                external_index(self.external_geometry@, name@, k as int) == external_index(
                    self.external_geometry@,
                    name@,
                    0,
                ),
            decreases self.external_geometry@.len() - k,
        {
            if str_equal(self.external_geometry[k].0.as_str(), name) {
                return Some(&self.external_geometry[k].1);
            }
            k = k + 1;
        }
        None
    }

    /// The number of points.
    pub fn point_count(&self) -> (n: usize)
        ensures
            n == self.geometry.points@.len(),
    {
        self.geometry.points.len()
    }

    /// The float stream `name` (never `P`).
    pub fn get_float(&self, name: &str) -> (r: Result<&Attribute<F>, String>)
        ensures
            name@ == "P"@ ==> (r matches Err(e) && e@ == position_message()),
            name@ != "P"@ ==> ({
                let k = attr_index(self.geometry.attributes@, name@, 0);
                if k < self.geometry.attributes@.len() && self.geometry.attributes@[k] is Float {
                    r == Ok::<&Attribute<F>, String>(&self.geometry.attributes@[k]->Float_0)
                } else {
                    r matches Err(e) && e@ == missing_message(name@, "Float"@)
                }
            }),
    {
        if str_equal(name, "P") {
            return Err(String::from_str("Use get_vec3 for P (position) attribute"));
        }
        let k = find_attr(&self.geometry.attributes, name);
        if k < self.geometry.attributes.len() {
            match &self.geometry.attributes[k] {
                AttributeData::Float(a) => {
                    return Ok(a);
                },
                _ => {},
            }
        }
        Err(missing(name, "Float"))
    }

    /// The integer stream `name`.
    pub fn get_int(&self, name: &str) -> (r: Result<&Attribute<i32>, String>)
        ensures
            ({
                let k = attr_index(self.geometry.attributes@, name@, 0);
                if k < self.geometry.attributes@.len() && self.geometry.attributes@[k] is Int {
                    r == Ok::<&Attribute<i32>, String>(&self.geometry.attributes@[k]->Int_0)
                } else {
                    r matches Err(e) && e@ == missing_message(name@, "Int"@)
                }
            }),
    {
        let k = find_attr(&self.geometry.attributes, name);
        if k < self.geometry.attributes.len() {
            match &self.geometry.attributes[k] {
                AttributeData::Int(a) => {
                    return Ok(a);
                },
                _ => {},
            }
        }
        Err(missing(name, "Int"))
    }

    /// Stores a float stream.
    pub fn set_float(&mut self, a: Attribute<F>)
        ensures
            final(self).geometry.attributes@ == stored(old(self).geometry.attributes@, AttributeData::Float(a)),
            final(self).geometry.points == old(self).geometry.points,
            final(self).geometry.topology == old(self).geometry.topology,
            final(self).external_geometry == old(self).external_geometry,
    {
        self.geometry.set_attribute(AttributeData::Float(a));
    }

    /// Stores an integer stream.
    pub fn set_int(&mut self, a: Attribute<i32>)
        ensures
            final(self).geometry.attributes@ == stored(old(self).geometry.attributes@, AttributeData::Int(a)),
            final(self).geometry.points == old(self).geometry.points,
            final(self).geometry.topology == old(self).geometry.topology,
            final(self).external_geometry == old(self).external_geometry,
    {
        self.geometry.set_attribute(AttributeData::Int(a));
    }

    /// Stores a vector stream; the stream `P` replaces the positions.
    pub fn set_vec3(&mut self, a: Attribute<V>)
        ensures
            a.name@ == "P"@ ==> final(self).geometry.points == a.data && final(self).geometry.attributes
                == old(self).geometry.attributes,
            a.name@ != "P"@ ==> final(self).geometry.attributes@ == stored(
                old(self).geometry.attributes@,
                AttributeData::Vec3(a),
            ) && final(self).geometry.points == old(self).geometry.points,
            final(self).geometry.topology == old(self).geometry.topology,
            final(self).external_geometry == old(self).external_geometry,
    {
        if str_equal(a.name.as_str(), "P") {
            self.geometry.points = a.data;
        } else {
            self.geometry.set_attribute(AttributeData::Vec3(a));
        }
    }
}

/// A copy of a stream of copyable values.
fn copy_attribute<T: Copy>(a: &Attribute<T>) -> (c: Attribute<T>)
    ensures
        c.name == a.name,
        c.data@ == a.data@,
        c.scope == a.scope,
{
    Attribute { name: a.name.clone(), data: copy_values(&a.data), scope: a.scope }
}

impl<F: Clone, V: Copy> ExecutionContext<F, V> {
    /// Succeeds when a stream named `name` is available (the positions are
    /// `P`), of whatever type; otherwise reports it missing.
    pub fn require_attribute(&self, name: &str) -> (r: Result<(), String>)
        ensures
            (name@ == "P"@ || attr_index(self.geometry.attributes@, name@, 0) < self.geometry.attributes@.len())
                ==> r is Ok,
            !(name@ == "P"@ || attr_index(self.geometry.attributes@, name@, 0) < self.geometry.attributes@.len())
                ==> (r matches Err(e) && e@ == attribute_missing_message(name@)),
    {
        if str_equal(name, "P") || self.geometry.has_attribute(name) {
            Ok(())
        } else {
            Err(attribute_missing(name))
        }
    }

    /// The vector stream `name`; `P` is the positions.
    pub fn get_vec3(&self, name: &str) -> (r: Result<Attribute<V>, String>)
        ensures
            name@ == "P"@ ==> (r matches Ok(a) && a.name@ == "P"@ && a.data@ == self.geometry.points@
                && a.scope == AttributeScope::Point),
            name@ != "P"@ ==> ({
                let k = attr_index(self.geometry.attributes@, name@, 0);
                if k < self.geometry.attributes@.len() && self.geometry.attributes@[k] is Vec3 {
                    let s = self.geometry.attributes@[k]->Vec3_0;
                    r matches Ok(a) && a.name == s.name && a.data@ == s.data@ && a.scope == s.scope
                } else {
                    r matches Err(e) && e@ == missing_message(name@, "Vec3"@)
                }
            }),
    {
        if str_equal(name, "P") {
            return Ok(self.geometry.get_p());
        }
        let k = find_attr(&self.geometry.attributes, name);
        if k < self.geometry.attributes.len() {
            match &self.geometry.attributes[k] {
                AttributeData::Vec3(a) => {
                    return Ok(copy_attribute(a));
                },
                _ => {},
            }
        }
        Err(missing(name, "Vec3"))
    }
}

} // verus!
