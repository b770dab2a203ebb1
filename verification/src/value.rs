//! The structured interchange form: a tagged union of plain data that every
//! record converts to and from before it is encoded, and the content
//! identifier that addresses a stored record.
use vstd::prelude::*;

verus! {

/// A content identifier: the opaque, comparable address of a stored record,
/// derived deterministically from the record's encoded bytes.
#[derive(Debug, PartialEq, Eq)]
pub struct Identifier {
    bytes: Vec<u8>,
}

impl View for Identifier {
    type V = Seq<u8>;

    closed spec fn view(&self) -> Seq<u8> {
        self.bytes@
    }
}

impl Clone for Identifier {
    /// An identifier copies to an equal identifier.
    fn clone(&self) -> (r: Identifier)
        ensures
            r@ == self@,
    {
        let bytes = vstd::slice::slice_to_vec(self.bytes.as_slice());
        Identifier { bytes }
    }
}

impl Identifier {
    /// Wraps the transmissible byte form of an identifier.
    pub fn from_bytes(bytes: Vec<u8>) -> (r: Identifier)
        ensures
            r@ == bytes@,
    {
        Identifier { bytes }
    }

    /// The transmissible byte form of this identifier.
    pub fn as_bytes(&self) -> (r: &Vec<u8>)
        ensures
            r@ == self@,
    {
        &self.bytes
    }
}

/// One key-value pair of a mapping value; pairs keep their insertion order.
#[derive(Debug, PartialEq, Eq)]
pub struct Entry {
    pub key: String,
    pub value: Value,
}

/// A self-describing structured value: the universal form that records are
/// converted to before encoding and from after decoding.
#[derive(Debug, PartialEq, Eq)]
pub enum Value {
    /// The absent value.
    Null,
    /// A boolean.
    Bool(bool),
    /// An unsigned integer.
    Int(u64),
    /// A UTF-8 string.
    Str(String),
    /// A byte string.
    Bytes(Vec<u8>),
    /// A reference to another stored record, by its content identifier.
    Link(Identifier),
    /// An ordered sequence of values.
    List(Vec<Value>),
    /// A mapping from string keys to values, in insertion order.
    Mapping(Vec<Entry>),
}

/// The mathematical form of a structured value.
pub enum ValueV {
    Null,
    Bool(bool),
    Int(u64),
    Str(Seq<char>),
    Bytes(Seq<u8>),
    Link(Seq<u8>),
    List(Seq<ValueV>),
    Mapping(Seq<(Seq<char>, ValueV)>),
}

impl Value {
    /// The mathematical value that this structured value stands for.
    pub open spec fn deep(self) -> ValueV
        decreases self,
    {
        match self {
            Value::Null => ValueV::Null,
            Value::Bool(b) => ValueV::Bool(b),
            Value::Int(n) => ValueV::Int(n),
            Value::Str(s) => ValueV::Str(s@),
            Value::Bytes(b) => ValueV::Bytes(b@),
            Value::Link(id) => ValueV::Link(id@),
            Value::List(l) => ValueV::List(
                Seq::new(
                    l@.len(),
                    |i: int|
                        if 0 <= i < l@.len() {
                            l@[i].deep()
                        } else {
                            ValueV::Null
                        },
                ),
            ),
            Value::Mapping(m) => ValueV::Mapping(
                Seq::new(
                    m@.len(),
                    |i: int|
                        if 0 <= i < m@.len() {
                            (m@[i].key@, m@[i].value.deep())
                        } else {
                            (Seq::empty(), ValueV::Null)
                        },
                ),
            ),
        }
    }
}

impl View for Value {
    type V = ValueV;

    open spec fn view(&self) -> ValueV {
        self.deep()
    }
}

/// The mathematical values that a list of structured values stands for.
pub open spec fn elem_views(l: Seq<Value>) -> Seq<ValueV> {
    Seq::new(l.len(), |i: int| l[i].deep())
}

/// The mathematical pairs that the entries of a mapping value stand for.
pub open spec fn entry_pairs(m: Seq<Entry>) -> Seq<(Seq<char>, ValueV)> {
    Seq::new(m.len(), |i: int| (m[i].key@, m[i].value.deep()))
}

/// A list value stands for the list of what its elements stand for.
pub broadcast proof fn lemma_deep_list(l: Vec<Value>)
    ensures
        (#[trigger] Value::List(l).deep()) == ValueV::List(elem_views(l@)),
{
    assert(Value::List(l).deep()->List_0 =~= elem_views(l@));
}

/// A mapping value stands for the ordered pairs of its entries.
pub broadcast proof fn lemma_deep_mapping(m: Vec<Entry>)
    ensures
        (#[trigger] Value::Mapping(m).deep()) == ValueV::Mapping(entry_pairs(m@)),
{
    assert(Value::Mapping(m).deep()->Mapping_0 =~= entry_pairs(m@));
}

/// Looks a key up among the pairs of a mapping value: the first pair with
/// that key wins, as insertion order is authoritative.
pub open spec fn map_lookup(pairs: Seq<(Seq<char>, ValueV)>, key: Seq<char>) -> Option<ValueV>
    decreases pairs.len(),
{
    if pairs.len() == 0 {
        None
    } else if pairs[0].0 == key {
        Some(pairs[0].1)
    } else {
        map_lookup(pairs.drop_first(), key)
    }
}

/// Finds the first pair with the given key, walking the pairs in order.
pub fn map_get<'a>(pairs: &'a Vec<Entry>, key: &String) -> (r: Option<&'a Value>)
    ensures
        match r {
            Some(v) => map_lookup(entry_pairs(pairs@), key@) == Some(v@),
            None => map_lookup(entry_pairs(pairs@), key@) is None,
        },
{
    let ghost all = entry_pairs(pairs@);
    let mut i: usize = 0;
    proof {
        assert(all.skip(0) =~= all);
    }
    while i < pairs.len()
        invariant
            i <= pairs.len(),
            all == entry_pairs(pairs@),
            map_lookup(all, key@) == map_lookup(all.skip(i as int), key@),
        decreases pairs.len() - i,
    {
        proof {
            assert(all.skip(i as int)[0] == (pairs@[i as int].key@, pairs@[i as int].value.deep()));
        }
        if pairs[i].key == *key {
            return Some(&pairs[i].value);
        }
        proof {
            assert(all.skip(i as int).drop_first() =~= all.skip(i + 1));
        }
        i = i + 1;
    }
    proof {
        assert(all.skip(i as int) =~= Seq::<(Seq<char>, ValueV)>::empty());
    }
    None
}

} // verus!
