//! The two record kinds: an annotation over a span of a biological
//! sequence, and the sequence record that owns an ordered list of
//! annotation links.  Each converts to and from the structured value
//! form under the fixed wire schema.
use vstd::prelude::*;
use vstd::utf8::{encode_utf8, is_ascii_chars};
use crate::value::{Value, ValueV, Entry, Identifier, map_lookup, entry_pairs};

verus! {

broadcast use vstd::utf8::group_utf8_lib;

/// The keys of the wire schema.
#[derive(Clone, Copy, Debug, PartialEq, Eq, Structural)]
pub enum FieldName {
    /// The record-kind tag, key `Type`.
    KeyType,
    /// The record's address, key `Addr`.
    KeyAddr,
    /// The raw sequence data, key `Seq`.
    KeySeq,
    /// The list of annotation links, key `Annots`.
    KeyAnnots,
    /// An annotation's start offset, key `From`.
    KeyFrom,
    /// An annotation's end offset, key `End`.
    KeyEnd,
    /// An annotation's comment, key `Cmt`.
    KeyCmt,
}

/// A structured value that does not follow the wire schema.
#[derive(Clone, Copy, Debug, PartialEq, Eq, Structural)]
pub enum SchemaError {
    /// The root of the record is not a mapping.
    NotAMap,
    /// A required key is absent.
    MissingField(FieldName),
    /// A key holds a value of the wrong kind.
    WrongType(FieldName),
    /// The record-kind tag names another record kind.
    WrongKind,
    /// The span runs backwards: its start lies past its end.
    InvalidSpan,
}

/// A domain invariant was violated when building a record in memory.
#[derive(Clone, Copy, Debug, PartialEq, Eq, Structural)]
pub struct ValidationError;

/// A remark over a span of a sequence.  Invariant: the span's start never
/// lies past its end.  Once built into the store it is immutable and is
/// referenced only through its content identifier.
#[derive(Debug, PartialEq, Eq)]
pub struct Annotation {
    address: String,
    from: u64,
    end: u64,
    comment: String,
}

/// The mathematical form of an annotation.
pub struct AnnotationV {
    pub address: Seq<char>,
    pub from: u64,
    pub end: u64,
    pub comment: Seq<char>,
}

impl AnnotationV {
    /// A well-formed annotation: the span is ordered, and the texts fit
    /// the encoding's length prefixes.
    pub open spec fn wf(self) -> bool {
        self.from <= self.end && encode_utf8(self.address).len() <= u64::MAX && encode_utf8(
            self.comment,
        ).len() <= u64::MAX
    }
}

impl View for Annotation {
    type V = AnnotationV;

    closed spec fn view(&self) -> AnnotationV {
        AnnotationV {
            address: self.address@,
            from: self.from,
            end: self.end,
            comment: self.comment@,
        }
    }
}

impl Clone for Annotation {
    /// An annotation copies to an equal annotation.
    fn clone(&self) -> (r: Annotation)
        ensures
            r@ == self@,
    {
        Annotation {
            address: self.address.clone(),
            from: self.from,
            end: self.end,
            comment: self.comment.clone(),
        }
    }
}

/// The structured value form of an annotation, under the wire schema.
pub open spec fn annot_value(a: AnnotationV) -> ValueV {
    ValueV::Mapping(
        seq![
            ("Type"@, ValueV::Str("annotation"@)),
            ("Addr"@, ValueV::Str(a.address)),
            ("From"@, ValueV::Int(a.from)),
            ("End"@, ValueV::Int(a.end)),
            ("Cmt"@, ValueV::Str(a.comment)),
        ],
    )
}

/// The annotation that a structured value stands for, or the exact schema
/// error: not a mapping, the first missing key, the first key of the
/// wrong kind, a foreign record-kind tag, or a backwards span.
pub open spec fn annot_from_value(v: ValueV) -> Result<AnnotationV, SchemaError> {
    if !(v is Mapping) {
        Err(SchemaError::NotAMap)
    } else {
        let m = v->Mapping_0;
        match map_lookup(m, "Type"@) {
            None => Err(SchemaError::MissingField(FieldName::KeyType)),
            Some(tv) => if !(tv is Str) {
                Err(SchemaError::WrongType(FieldName::KeyType))
            } else if tv->Str_0 != "annotation"@ {
                Err(SchemaError::WrongKind)
            } else {
                match map_lookup(m, "Addr"@) {
                    None => Err(SchemaError::MissingField(FieldName::KeyAddr)),
                    Some(av) => if !(av is Str) {
                        Err(SchemaError::WrongType(FieldName::KeyAddr))
                    } else {
                        match map_lookup(m, "From"@) {
                            None => Err(SchemaError::MissingField(FieldName::KeyFrom)),
                            Some(fv) => if !(fv is Int) {
                                Err(SchemaError::WrongType(FieldName::KeyFrom))
                            } else {
                                match map_lookup(m, "End"@) {
                                    None => Err(SchemaError::MissingField(FieldName::KeyEnd)),
                                    Some(ev) => if !(ev is Int) {
                                        Err(SchemaError::WrongType(FieldName::KeyEnd))
                                    } else {
                                        match map_lookup(m, "Cmt"@) {
                                            None => Err(
                                                SchemaError::MissingField(FieldName::KeyCmt),
                                            ),
                                            Some(cv) => if !(cv is Str) {
                                                Err(SchemaError::WrongType(FieldName::KeyCmt))
                                            } else if fv->Int_0 > ev->Int_0 {
                                                Err(SchemaError::InvalidSpan)
                                            } else {
                                                Ok(
                                                    AnnotationV {
                                                        address: av->Str_0,
                                                        from: fv->Int_0,
                                                        end: ev->Int_0,
                                                        comment: cv->Str_0,
                                                    },
                                                )
                                            },
                                        }
                                    },
                                }
                            },
                        }
                    },
                }
            },
        }
    }
}

impl Annotation {
    /// Builds an annotation in memory, refusing a backwards span.
    pub fn new(address: String, from: u64, end: u64, comment: String) -> (r: Result<
        Annotation,
        ValidationError,
    >)
        ensures
            from <= end ==> (r matches Ok(a) && a@ == AnnotationV {
                address: address@,
                from,
                end,
                comment: comment@,
            }),
            from > end ==> (r matches Err(e) && e == ValidationError),
    {
        if from > end {
            return Err(ValidationError);
        }
        Ok(Annotation { address, from, end, comment })
    }

    /// The address of this annotation.
    pub fn address(&self) -> (r: &String)
        ensures
            r@ == self@.address,
    {
        &self.address
    }

    /// The start offset of the span.
    pub fn from_offset(&self) -> (r: u64)
        ensures
            r == self@.from,
    {
        self.from
    }

    /// The end offset of the span.
    pub fn end_offset(&self) -> (r: u64)
        ensures
            r == self@.end,
    {
        self.end
    }

    /// The comment on the span.
    pub fn comment(&self) -> (r: &String)
        ensures
            r@ == self@.comment,
    {
        &self.comment
    }

    /// Converts this annotation to its structured value form.
    pub fn to_structured(&self) -> (r: Value)
        ensures
            r@ == annot_value(self@),
    {
        let mut m: Vec<Entry> = Vec::new();
        m.push(
            Entry {
                key: String::from_str("Type"),
                value: Value::Str(String::from_str("annotation")),
            },
        );
        m.push(Entry { key: String::from_str("Addr"), value: Value::Str(self.address.clone()) });
        m.push(Entry { key: String::from_str("From"), value: Value::Int(self.from) });
        m.push(Entry { key: String::from_str("End"), value: Value::Int(self.end) });
        m.push(Entry { key: String::from_str("Cmt"), value: Value::Str(self.comment.clone()) });
        let r = Value::Mapping(m);
        proof {
            crate::value::lemma_deep_mapping(r->Mapping_0);
            assert(entry_pairs(r->Mapping_0@) =~= annot_value(self@)->Mapping_0);
        }
        r
    }

    /// Reads an annotation back from its structured value form, reporting
    /// the exact schema violation when the value does not follow the
    /// schema.
    pub fn from_structured(v: &Value) -> (r: Result<Annotation, SchemaError>)
        ensures
            r matches Ok(a) ==> annot_from_value(v@) == Ok::<AnnotationV, SchemaError>(a@),
            r matches Err(e) ==> annot_from_value(v@) == Err::<AnnotationV, SchemaError>(e),
    {
        let m = match v {
            Value::Mapping(m) => m,
            _ => {
                return Err(SchemaError::NotAMap);
            },
        };
        proof {
            crate::value::lemma_deep_mapping(*m);
        }
        let tv = match crate::value::map_get(m, &String::from_str("Type")) {
            Some(t) => t,
            None => {
                return Err(SchemaError::MissingField(FieldName::KeyType));
            },
        };
        let ts = match tv {
            Value::Str(s) => s,
            _ => {
                return Err(SchemaError::WrongType(FieldName::KeyType));
            },
        };
        if !(*ts == String::from_str("annotation")) {
            return Err(SchemaError::WrongKind);
        }
        let av = match crate::value::map_get(m, &String::from_str("Addr")) {
            Some(t) => t,
            None => {
                return Err(SchemaError::MissingField(FieldName::KeyAddr));
            },
        };
        let addr = match av {
            Value::Str(s) => s,
            _ => {
                return Err(SchemaError::WrongType(FieldName::KeyAddr));
            },
        };
        let fv = match crate::value::map_get(m, &String::from_str("From")) {
            Some(t) => t,
            None => {
                return Err(SchemaError::MissingField(FieldName::KeyFrom));
            },
        };
        let from = match fv {
            Value::Int(n) => *n,
            _ => {
                return Err(SchemaError::WrongType(FieldName::KeyFrom));
            },
        };
        let ev = match crate::value::map_get(m, &String::from_str("End")) {
            Some(t) => t,
            None => {
                return Err(SchemaError::MissingField(FieldName::KeyEnd));
            },
        };
        let end = match ev {
            Value::Int(n) => *n,
            _ => {
                return Err(SchemaError::WrongType(FieldName::KeyEnd));
            },
        };
        let cv = match crate::value::map_get(m, &String::from_str("Cmt")) {
            Some(t) => t,
            None => {
                return Err(SchemaError::MissingField(FieldName::KeyCmt));
            },
        };
        let cmt = match cv {
            Value::Str(s) => s,
            _ => {
                return Err(SchemaError::WrongType(FieldName::KeyCmt));
            },
        };
        if from > end {
            return Err(SchemaError::InvalidSpan);
        }
        Ok(Annotation { address: addr.clone(), from, end, comment: cmt.clone() })
    }
}

/// The wire keys are short ASCII words; their UTF-8 forms are themselves.
proof fn lemma_keys_ascii()
    ensures
        encode_utf8("Type"@).len() == 4,
        encode_utf8("annotation"@).len() == 10,
        encode_utf8("sequence"@).len() == 8,
        encode_utf8("Addr"@).len() == 4,
        encode_utf8("Seq"@).len() == 3,
        encode_utf8("Annots"@).len() == 6,
        encode_utf8("From"@).len() == 4,
        encode_utf8("End"@).len() == 3,
        encode_utf8("Cmt"@).len() == 3,
{
    reveal_strlit("Type");
    reveal_strlit("annotation");
    reveal_strlit("sequence");
    reveal_strlit("Addr");
    reveal_strlit("Seq");
    reveal_strlit("Annots");
    reveal_strlit("From");
    reveal_strlit("End");
    reveal_strlit("Cmt");
    assert(is_ascii_chars("Type"@));
    assert(is_ascii_chars("annotation"@));
    assert(is_ascii_chars("sequence"@));
    assert(is_ascii_chars("Addr"@));
    assert(is_ascii_chars("Seq"@));
    assert(is_ascii_chars("Annots"@));
    assert(is_ascii_chars("From"@));
    assert(is_ascii_chars("End"@));
    assert(is_ascii_chars("Cmt"@));
}

/// A well-formed annotation's structured value fits the codec.
pub proof fn lemma_annot_value_valid(a: AnnotationV)
    requires
        a.wf(),
    ensures
        crate::codec::valid_v(annot_value(a)),
{
    lemma_keys_ascii();
    let m = annot_value(a)->Mapping_0;
    assert forall|i: int| 0 <= i < m.len() implies encode_utf8((#[trigger] m[i]).0).len()
        <= u64::MAX && crate::codec::valid_v(m[i].1) by {
        if i == 1 {
            assert(m[1] == ("Addr"@, ValueV::Str(a.address)));
        }
        if i == 4 {
            assert(m[4] == ("Cmt"@, ValueV::Str(a.comment)));
        }
    }
}

/// Round trip: every well-formed annotation converts to a structured
/// value and back to exactly itself.
pub proof fn lemma_annotation_round_trip(a: AnnotationV)
    requires
        a.from <= a.end,
    ensures
        annot_from_value(annot_value(a)) == Ok::<AnnotationV, SchemaError>(a),
{
    reveal_strlit("Type");
    reveal_strlit("annotation");
    reveal_strlit("Addr");
    reveal_strlit("From");
    reveal_strlit("End");
    reveal_strlit("Cmt");
    let m = annot_value(a)->Mapping_0;
    let m1 = m.drop_first();
    let m2 = m1.drop_first();
    let m3 = m2.drop_first();
    let m4 = m3.drop_first();
    assert(m1[0] == m[1] && m1[1] == m[2] && m1[2] == m[3] && m1[3] == m[4] && m1.len() == 4);
    assert(m2[0] == m[2] && m2[1] == m[3] && m2[2] == m[4] && m2.len() == 3);
    assert(m3[0] == m[3] && m3[1] == m[4] && m3.len() == 2);
    assert(m4[0] == m[4] && m4.len() == 1);
    assert("Type"@[0] == 'T' && "Addr"@[0] == 'A' && "From"@[0] == 'F' && "End"@[0] == 'E'
        && "Cmt"@[0] == 'C');
    assert("Type"@ != "Addr"@ && "Type"@ != "From"@ && "Type"@ != "End"@ && "Type"@ != "Cmt"@);
    assert("Addr"@ != "From"@ && "Addr"@ != "End"@ && "Addr"@ != "Cmt"@);
    assert("From"@ != "End"@ && "From"@ != "Cmt"@);
    assert("End"@ != "Cmt"@);
    assert(map_lookup(m, "Type"@) == Some(ValueV::Str("annotation"@)));
    assert(map_lookup(m, "Addr"@) == map_lookup(m1, "Addr"@));
    assert(map_lookup(m, "Addr"@) == Some(ValueV::Str(a.address)));
    assert(map_lookup(m, "From"@) == map_lookup(m1, "From"@) && map_lookup(m1, "From"@)
        == map_lookup(m2, "From"@));
    assert(map_lookup(m, "From"@) == Some(ValueV::Int(a.from)));
    assert(map_lookup(m, "End"@) == map_lookup(m1, "End"@) && map_lookup(m1, "End"@)
        == map_lookup(m2, "End"@) && map_lookup(m2, "End"@) == map_lookup(m3, "End"@));
    assert(map_lookup(m, "End"@) == Some(ValueV::Int(a.end)));
    assert(map_lookup(m, "Cmt"@) == map_lookup(m1, "Cmt"@) && map_lookup(m1, "Cmt"@)
        == map_lookup(m2, "Cmt"@) && map_lookup(m2, "Cmt"@) == map_lookup(m3, "Cmt"@)
        && map_lookup(m3, "Cmt"@) == map_lookup(m4, "Cmt"@));
    assert(map_lookup(m, "Cmt"@) == Some(ValueV::Str(a.comment)));
}

/// Schema validation: a mapping that carries a well-formed kind tag,
/// address, and span, but no comment key, is rejected exactly with a
/// missing-comment-field error.
pub proof fn lemma_missing_comment(pairs: Seq<(Seq<char>, ValueV)>)
    requires
        map_lookup(pairs, "Type"@) == Some(ValueV::Str("annotation"@)),
        map_lookup(pairs, "Addr"@) matches Some(v) && v is Str,
        map_lookup(pairs, "From"@) matches Some(v) && v is Int,
        map_lookup(pairs, "End"@) matches Some(v) && v is Int,
        map_lookup(pairs, "Cmt"@) is None,
    ensures
        annot_from_value(ValueV::Mapping(pairs)) == Err::<AnnotationV, SchemaError>(
            SchemaError::MissingField(FieldName::KeyCmt),
        ),
{
}


/// Failure while building a sequence into the store.
#[derive(Clone, Copy, Debug, PartialEq, Eq, Structural)]
pub enum BuildError {
    /// Building the annotation at this index failed in the store.
    Annotation(usize, crate::store::StoreError),
    /// Storing the sequence's own record failed.
    Store(crate::store::StoreError),
}

/// Failure while resolving one annotation child.
#[derive(Clone, Copy, Debug, PartialEq, Eq, Structural)]
pub enum ItemError {
    /// The store failed to hand the child's bytes out.
    Store(crate::store::StoreError),
    /// The child's bytes are no canonical encoding.
    Decode,
    /// The child's structured value does not follow the schema.
    Schema(SchemaError),
}

/// Failure while resolving a sequence from the store.
#[derive(Clone, Copy, Debug, PartialEq, Eq, Structural)]
pub enum ResolveError {
    /// The store failed to hand the root record's bytes out.
    Store(crate::store::StoreError),
    /// The root record's bytes are no canonical encoding.
    Decode,
    /// The root record does not follow the schema.
    Schema(SchemaError),
    /// The annotation child at this index failed.
    Annotation(usize, ItemError),
}

/// A biological sequence with its ordered annotations.  Immutable once
/// built: adding an annotation yields a new value, and building yields a
/// new identifier.
#[derive(Debug, PartialEq, Eq)]
pub struct Sequence {
    address: String,
    sequence: String,
    annotations: Vec<Annotation>,
}

/// The mathematical form of a sequence.
pub struct SequenceV {
    pub address: Seq<char>,
    pub sequence: Seq<char>,
    pub annotations: Seq<AnnotationV>,
}

impl SequenceV {
    /// A well-formed sequence: its texts fit the encoding's length
    /// prefixes, and every annotation is well-formed.
    pub open spec fn wf(self) -> bool {
        encode_utf8(self.address).len() <= u64::MAX && encode_utf8(self.sequence).len()
            <= u64::MAX && self.annotations.len() <= u64::MAX && (forall|i: int|
            0 <= i < self.annotations.len() ==> (#[trigger] self.annotations[i]).wf())
    }
}

/// The mathematical annotations that a list of annotations stands for.
pub open spec fn annot_views(l: Seq<Annotation>) -> Seq<AnnotationV> {
    Seq::new(l.len(), |i: int| l[i]@)
}

impl View for Sequence {
    type V = SequenceV;

    closed spec fn view(&self) -> SequenceV {
        SequenceV {
            address: self.address@,
            sequence: self.sequence@,
            annotations: annot_views(self.annotations@),
        }
    }
}

/// The identifiers that a list of identifier values stands for.
pub open spec fn id_views(l: Seq<Identifier>) -> Seq<Seq<u8>> {
    Seq::new(l.len(), |i: int| l[i]@)
}

/// The structured value form of a sequence record, under the wire
/// schema: the annotations appear as links, in their original order.
pub open spec fn seq_record_value(address: Seq<char>, sequence: Seq<char>, ids: Seq<Seq<u8>>) -> ValueV {
    ValueV::Mapping(
        seq![
            ("Type"@, ValueV::Str("sequence"@)),
            ("Addr"@, ValueV::Str(address)),
            ("Seq"@, ValueV::Str(sequence)),
            ("Annots"@, ValueV::List(Seq::new(ids.len(), |i: int| ValueV::Link(ids[i])))),
        ],
    )
}

/// True when every element of a list value is a link.
pub open spec fn all_links(l: Seq<ValueV>) -> bool {
    forall|i: int| 0 <= i < l.len() ==> (#[trigger] l[i]) is Link
}

/// The identifiers behind a list of link values.
pub open spec fn link_ids(l: Seq<ValueV>) -> Seq<Seq<u8>> {
    Seq::new(l.len(), |i: int| l[i]->Link_0)
}

/// The address, sequence text and annotation links that a structured
/// value stands for, or the exact schema error.
pub open spec fn seq_from_value(v: ValueV) -> Result<(Seq<char>, Seq<char>, Seq<Seq<u8>>), SchemaError> {
    if !(v is Mapping) {
        Err(SchemaError::NotAMap)
    } else {
        let m = v->Mapping_0;
        match map_lookup(m, "Type"@) {
            None => Err(SchemaError::MissingField(FieldName::KeyType)),
            Some(tv) => if !(tv is Str) {
                Err(SchemaError::WrongType(FieldName::KeyType))
            } else if tv->Str_0 != "sequence"@ {
                Err(SchemaError::WrongKind)
            } else {
                match map_lookup(m, "Addr"@) {
                    None => Err(SchemaError::MissingField(FieldName::KeyAddr)),
                    Some(av) => if !(av is Str) {
                        Err(SchemaError::WrongType(FieldName::KeyAddr))
                    } else {
                        match map_lookup(m, "Seq"@) {
                            None => Err(SchemaError::MissingField(FieldName::KeySeq)),
                            Some(sv) => if !(sv is Str) {
                                Err(SchemaError::WrongType(FieldName::KeySeq))
                            } else {
                                match map_lookup(m, "Annots"@) {
                                    None => Err(SchemaError::MissingField(FieldName::KeyAnnots)),
                                    Some(lv) => if !(lv is List) {
                                        Err(SchemaError::WrongType(FieldName::KeyAnnots))
                                    } else if !all_links(lv->List_0) {
                                        Err(SchemaError::WrongType(FieldName::KeyAnnots))
                                    } else {
                                        Ok((av->Str_0, sv->Str_0, link_ids(lv->List_0)))
                                    },
                                }
                            },
                        }
                    },
                }
            },
        }
    }
}

/// Builds the structured value of a sequence record from its parts.
pub fn make_sequence_record(address: &String, sequence: &String, ids: &Vec<Identifier>) -> (r:
    Value)
    ensures
        r@ == seq_record_value(address@, sequence@, id_views(ids@)),
{
    let mut links: Vec<Value> = Vec::new();
    let mut k: usize = 0;
    while k < ids.len()
        invariant
            k <= ids@.len(),
            links@.len() == k,
            forall|i: int| 0 <= i < k ==> (#[trigger] links@[i].deep()) == ValueV::Link(ids@[i]@),
        decreases ids@.len() - k,
    {
        links.push(Value::Link(ids[k].clone()));
        k = k + 1;
    }
    let links_value = Value::List(links);
    proof {
        assert(links_value->List_0@.len() == ids@.len());
        assert forall|i: int| 0 <= i < links_value->List_0@.len() implies links_value.deep()
            ->List_0[i] == ValueV::Link(id_views(ids@)[i]) by {
            assert(links_value->List_0@[i].deep() == ValueV::Link(ids@[i]@));
        }
        assert(links_value.deep()->List_0 =~= Seq::new(
            id_views(ids@).len(),
            |i: int| ValueV::Link(id_views(ids@)[i]),
        ));
    }
    let ghost lv = links_value.deep();
    let mut m: Vec<Entry> = Vec::new();
    m.push(
        Entry { key: String::from_str("Type"), value: Value::Str(String::from_str("sequence")) },
    );
    m.push(Entry { key: String::from_str("Addr"), value: Value::Str(address.clone()) });
    m.push(Entry { key: String::from_str("Seq"), value: Value::Str(sequence.clone()) });
    m.push(Entry { key: String::from_str("Annots"), value: links_value });
    let r = Value::Mapping(m);
    proof {
        crate::value::lemma_deep_mapping(r->Mapping_0);
        assert(m@[3].value.deep() == lv);
        assert(entry_pairs(r->Mapping_0@) =~= seq_record_value(
            address@,
            sequence@,
            id_views(ids@),
        )->Mapping_0);
    }
    r
}

/// Reads a sequence record's parts back from its structured value form,
/// reporting the exact schema violation when it does not follow the
/// schema.
pub fn parse_sequence_record(v: &Value) -> (r: Result<(String, String, Vec<Identifier>), SchemaError>)
    ensures
        r matches Ok(p) ==> seq_from_value(v@) == Ok::<(Seq<char>, Seq<char>, Seq<Seq<u8>>), SchemaError>(
            (p.0@, p.1@, id_views(p.2@)),
        ),
        r matches Err(e) ==> seq_from_value(v@) == Err::<(Seq<char>, Seq<char>, Seq<Seq<u8>>), SchemaError>(e),
{
    let m = match v {
        Value::Mapping(m) => m,
        _ => {
            return Err(SchemaError::NotAMap);
        },
    };
    proof {
        crate::value::lemma_deep_mapping(*m);
    }
    let tv = match crate::value::map_get(m, &String::from_str("Type")) {
        Some(t) => t,
        None => {
            return Err(SchemaError::MissingField(FieldName::KeyType));
        },
    };
    let ts = match tv {
        Value::Str(s) => s,
        _ => {
            return Err(SchemaError::WrongType(FieldName::KeyType));
        },
    };
    if !(*ts == String::from_str("sequence")) {
        return Err(SchemaError::WrongKind);
    }
    let av = match crate::value::map_get(m, &String::from_str("Addr")) {
        Some(t) => t,
        None => {
            return Err(SchemaError::MissingField(FieldName::KeyAddr));
        },
    };
    let addr = match av {
        Value::Str(s) => s,
        _ => {
            return Err(SchemaError::WrongType(FieldName::KeyAddr));
        },
    };
    let sv = match crate::value::map_get(m, &String::from_str("Seq")) {
        Some(t) => t,
        None => {
            return Err(SchemaError::MissingField(FieldName::KeySeq));
        },
    };
    let stext = match sv {
        Value::Str(s) => s,
        _ => {
            return Err(SchemaError::WrongType(FieldName::KeySeq));
        },
    };
    let lv = match crate::value::map_get(m, &String::from_str("Annots")) {
        Some(t) => t,
        None => {
            return Err(SchemaError::MissingField(FieldName::KeyAnnots));
        },
    };
    let list = match lv {
        Value::List(l) => l,
        _ => {
            return Err(SchemaError::WrongType(FieldName::KeyAnnots));
        },
    };
    proof {
        crate::value::lemma_deep_list(*list);
    }
    let mut ids: Vec<Identifier> = Vec::new();
    let mut k: usize = 0;
    proof {
        assert(seq_from_value(v@) == (if all_links(crate::value::elem_views(list@)) {
            Ok::<(Seq<char>, Seq<char>, Seq<Seq<u8>>), SchemaError>(
                (addr@, stext@, link_ids(crate::value::elem_views(list@))),
            )
        } else {
            Err::<(Seq<char>, Seq<char>, Seq<Seq<u8>>), SchemaError>(
                SchemaError::WrongType(FieldName::KeyAnnots),
            )
        }));
    }
    while k < list.len()
        invariant
            k <= list@.len(),
            ids@.len() == k,
            forall|i: int|
                0 <= i < k ==> (#[trigger] crate::value::elem_views(list@)[i]) is Link
                    && ids@[i]@ == crate::value::elem_views(list@)[i]->Link_0,
            seq_from_value(v@) == (if all_links(crate::value::elem_views(list@)) {
                Ok::<(Seq<char>, Seq<char>, Seq<Seq<u8>>), SchemaError>(
                    (addr@, stext@, link_ids(crate::value::elem_views(list@))),
                )
            } else {
                Err::<(Seq<char>, Seq<char>, Seq<Seq<u8>>), SchemaError>(
                    SchemaError::WrongType(FieldName::KeyAnnots),
                )
            }),
        decreases list@.len() - k,
    {
        match &list[k] {
            Value::Link(id) => {
                ids.push(id.clone());
            },
            _ => {
                proof {
                    assert(crate::value::elem_views(list@)[k as int] == list@[k as int].deep());
                    assert(!(crate::value::elem_views(list@)[k as int] is Link));
                    assert(!all_links(crate::value::elem_views(list@)));
                }
                return Err(SchemaError::WrongType(FieldName::KeyAnnots));
            },
        }
        k = k + 1;
    }
    proof {
        assert(all_links(crate::value::elem_views(list@)));
        assert(id_views(ids@) =~= link_ids(crate::value::elem_views(list@)));
    }
    Ok((addr.clone(), stext.clone(), ids))
}

/// How one list of annotations builds into the store, child by child in
/// index order: the identifiers come back in the same order, and the
/// first failure is reported with its index.
pub open spec fn spec_build_annots(annots: Seq<AnnotationV>, st: Seq<(Seq<u8>, Seq<u8>)>) -> (
    Result<Seq<Seq<u8>>, (int, crate::store::StoreError)>,
    Seq<(Seq<u8>, Seq<u8>)>,
)
    decreases annots.len(),
{
    if annots.len() == 0 {
        (Ok(Seq::empty()), st)
    } else {
        let step = crate::store::spec_put(st, crate::codec::enc(annot_value(annots[0])));
        match step.0 {
            Err(e) => (Err((0, e)), step.1),
            Ok(key) => {
                let rest = spec_build_annots(annots.drop_first(), step.1);
                match rest.0 {
                    Ok(ids) => (Ok(Seq::empty().push(key) + ids), rest.1),
                    Err(p) => (Err((p.0 + 1, p.1)), rest.1),
                }
            },
        }
    }
}

/// Prefixes already-built identifiers onto the outcome of building the
/// remaining annotations, shifting failure indexes past them.
pub open spec fn annots_prepend(
    pre: Seq<Seq<u8>>,
    rest: (Result<Seq<Seq<u8>>, (int, crate::store::StoreError)>, Seq<(Seq<u8>, Seq<u8>)>),
) -> (Result<Seq<Seq<u8>>, (int, crate::store::StoreError)>, Seq<(Seq<u8>, Seq<u8>)>) {
    match rest.0 {
        Ok(ids) => (Ok(pre + ids), rest.1),
        Err(p) => (Err((p.0 + pre.len(), p.1)), rest.1),
    }
}

/// What building a sequence does: every annotation is built first, in
/// order; then the sequence's own record, holding their identifiers in
/// that order, is encoded and put, and its identifier is the result.
pub open spec fn spec_build(s: SequenceV, st: Seq<(Seq<u8>, Seq<u8>)>) -> (
    Result<Seq<u8>, BuildError>,
    Seq<(Seq<u8>, Seq<u8>)>,
) {
    let built = spec_build_annots(s.annotations, st);
    match built.0 {
        Err(p) => (Err(BuildError::Annotation(p.0 as usize, p.1)), built.1),
        Ok(ids) => {
            let step = crate::store::spec_put(
                built.1,
                crate::codec::enc(seq_record_value(s.address, s.sequence, ids)),
            );
            match step.0 {
                Ok(key) => (Ok(key), step.1),
                Err(e) => (Err(BuildError::Store(e)), step.1),
            }
        },
    }
}

/// How one annotation child resolves: fetched, decoded, and read back
/// under the schema.
pub open spec fn spec_child(id: Seq<u8>, st: Seq<(Seq<u8>, Seq<u8>)>) -> Result<
    AnnotationV,
    ItemError,
> {
    match crate::store::lookup(st, id) {
        None => Err(ItemError::Store(crate::store::StoreError::NotFound)),
        Some(bytes) => match crate::codec::dec(bytes) {
            None => Err(ItemError::Decode),
            Some(v) => match annot_from_value(v) {
                Err(e) => Err(ItemError::Schema(e)),
                Ok(a) => Ok(a),
            },
        },
    }
}

/// How a list of annotation links resolves, child by child in index
/// order: the annotations come back in the links' order, and the first
/// failure is reported with its index.
pub open spec fn spec_resolve_annots(ids: Seq<Seq<u8>>, st: Seq<(Seq<u8>, Seq<u8>)>) -> Result<
    Seq<AnnotationV>,
    (int, ItemError),
>
    decreases ids.len(),
{
    if ids.len() == 0 {
        Ok(Seq::empty())
    } else {
        match spec_child(ids[0], st) {
            Err(e) => Err((0, e)),
            Ok(a) => match spec_resolve_annots(ids.drop_first(), st) {
                Ok(rest) => Ok(Seq::empty().push(a) + rest),
                Err(p) => Err((p.0 + 1, p.1)),
            },
        }
    }
}

/// Prefixes already-resolved annotations onto the outcome of resolving
/// the remaining links, shifting failure indexes past them.
pub open spec fn resolved_prepend(
    pre: Seq<AnnotationV>,
    rest: Result<Seq<AnnotationV>, (int, ItemError)>,
) -> Result<Seq<AnnotationV>, (int, ItemError)> {
    match rest {
        Ok(s) => Ok(pre + s),
        Err(p) => Err((p.0 + pre.len(), p.1)),
    }
}

/// What resolving an identifier returns: the sequence whose record it
/// addresses, with every annotation child fetched, decoded and read
/// back, in the record's own order; or the first failure, attributed to
/// the root or to the child index where it arose.
pub open spec fn spec_resolve(id: Seq<u8>, st: Seq<(Seq<u8>, Seq<u8>)>) -> Result<
    SequenceV,
    ResolveError,
> {
    match crate::store::lookup(st, id) {
        None => Err(ResolveError::Store(crate::store::StoreError::NotFound)),
        Some(bytes) => match crate::codec::dec(bytes) {
            None => Err(ResolveError::Decode),
            Some(v) => match seq_from_value(v) {
                Err(e) => Err(ResolveError::Schema(e)),
                Ok(parts) => match spec_resolve_annots(parts.2, st) {
                    Err(p) => Err(ResolveError::Annotation(p.0 as usize, p.1)),
                    Ok(annots) => Ok(
                        SequenceV { address: parts.0, sequence: parts.1, annotations: annots },
                    ),
                },
            },
        },
    }
}

impl Sequence {
    /// A sequence with no annotations yet.
    pub fn new(address: String, sequence: String) -> (r: Sequence)
        ensures
            r@.address == address@,
            r@.sequence == sequence@,
            r@.annotations == Seq::<AnnotationV>::empty(),
    {
        let r = Sequence { address, sequence, annotations: Vec::new() };
        proof {
            assert(r@.annotations =~= Seq::<AnnotationV>::empty());
        }
        r
    }

    /// The address of this sequence.
    pub fn address(&self) -> (r: &String)
        ensures
            r@ == self@.address,
    {
        &self.address
    }

    /// The raw sequence data.
    pub fn sequence_data(&self) -> (r: &String)
        ensures
            r@ == self@.sequence,
    {
        &self.sequence
    }

    /// The annotations, in their fixed order.
    pub fn annotations(&self) -> (r: &Vec<Annotation>)
        ensures
            annot_views(r@) == self@.annotations,
    {
        &self.annotations
    }

    /// Returns a new sequence with one more annotation appended, leaving
    /// this one untouched; a backwards span is refused and nothing
    /// changes.
    pub fn add_annotation(&self, address: String, from: u64, end: u64, comment: String) -> (r:
        Result<Sequence, ValidationError>)
        ensures
            from > end ==> (r matches Err(e) && e == ValidationError),
            from <= end ==> (r matches Ok(s2) && s2@.address == self@.address && s2@.sequence
                == self@.sequence && s2@.annotations == self@.annotations.push(
                AnnotationV { address: address@, from, end, comment: comment@ },
            )),
    {
        if from > end {
            return Err(ValidationError);
        }
        let mut annotations: Vec<Annotation> = Vec::new();
        let mut k: usize = 0;
        while k < self.annotations.len()
            invariant
                k <= self.annotations@.len(),
                annotations@.len() == k,
                forall|i: int| 0 <= i < k ==> (#[trigger] annotations@[i])@
                    == self.annotations@[i]@,
            decreases self.annotations@.len() - k,
        {
            annotations.push(self.annotations[k].clone());
            k = k + 1;
        }
        annotations.push(Annotation { address, from, end, comment });
        let r = Sequence {
            address: self.address.clone(),
            sequence: self.sequence.clone(),
            annotations,
        };
        proof {
            assert(r@.annotations =~= self@.annotations.push(
                AnnotationV { address: address@, from, end, comment: comment@ },
            ));
        }
        Ok(r)
    }

    /// Builds this sequence into the store: every annotation first, in
    /// order, then the sequence record holding their identifiers, whose
    /// own identifier is returned.  A failure names the annotation index
    /// where it arose, or the sequence record itself.
    pub fn build(&self, store: &mut crate::store::MemStore) -> (r: Result<Identifier, BuildError>)
        ensures
            final(store)@ == spec_build(self@, old(store)@).1,
            match r {
                Ok(id) => spec_build(self@, old(store)@).0 == Ok::<Seq<u8>, BuildError>(id@),
                Err(e) => spec_build(self@, old(store)@).0 == Err::<Seq<u8>, BuildError>(e),
            },
    {
        let ghost st0 = store@;
        let ghost views = self@.annotations;
        let mut ids: Vec<Identifier> = Vec::new();
        let mut k: usize = 0;
        proof {
            lemma_annots_prepend_nil(spec_build_annots(views, st0));
            assert(views.skip(0) =~= views);
            assert(id_views(ids@) =~= Seq::<Seq<u8>>::empty());
        }
        while k < self.annotations.len()
            invariant
                st0 == old(store)@,
                views == self@.annotations,
                views.len() == self.annotations@.len(),
                k <= self.annotations@.len(),
                ids@.len() == k,
                spec_build_annots(views, st0) == annots_prepend(
                    id_views(ids@),
                    spec_build_annots(views.skip(k as int), store@),
                ),
            decreases self.annotations@.len() - k,
        {
            let sv = self.annotations[k].to_structured();
            let bytes = crate::codec::encode_value(&sv);
            let ghost pre = store@;
            proof {
                assert(views[k as int] == self.annotations@[k as int]@);
                assert(views.skip(k as int)[0] == views[k as int]);
                assert(views.skip(k as int).drop_first() =~= views.skip(k as int + 1));
            }
            match store.put(&bytes) {
                Ok(id) => {
                    let ghost previds = ids@;
                    ids.push(id);
                    proof {
                        assert(id_views(ids@) =~= id_views(previds).push(
                            id_views(ids@)[k as int],
                        ));
                        lemma_annots_prepend_step(
                            id_views(previds),
                            id_views(ids@)[k as int],
                            spec_build_annots(views.skip(k as int + 1), store@),
                        );
                        assert(spec_build_annots(views.skip(k as int), pre) == annots_prepend(
                            Seq::empty().push(id_views(ids@)[k as int]),
                            spec_build_annots(views.skip(k as int + 1), store@),
                        ));
                    }
                    k = k + 1;
                },
                Err(e) => {
                    proof {
                        assert(spec_build_annots(views.skip(k as int), pre).0 == Err::<
                            Seq<Seq<u8>>,
                            (int, crate::store::StoreError),
                        >((0, e)));
                        assert(spec_build_annots(views, st0).0 matches Err(p) && p.0 == k as int
                            && p.1 == e);
                    }
                    return Err(BuildError::Annotation(k, e));
                },
            }
        }
        proof {
            assert(views.skip(k as int) =~= Seq::<AnnotationV>::empty());
            assert(spec_build_annots(views, st0) == (
                Ok::<Seq<Seq<u8>>, (int, crate::store::StoreError)>(id_views(ids@)),
                store@,
            )) by {
                assert(id_views(ids@) + Seq::<Seq<u8>>::empty() =~= id_views(ids@));
            }
        }
        let record = make_sequence_record(&self.address, &self.sequence, &ids);
        let bytes = crate::codec::encode_value(&record);
        match store.put(&bytes) {
            Ok(id) => Ok(id),
            Err(e) => Err(BuildError::Store(e)),
        }
    }

    /// Resolves an identifier back to the sequence whose record it
    /// addresses, fetching and decoding every annotation child and
    /// keeping the record's own order.  The first failure aborts the
    /// resolve and names where it arose.
    #[verifier::rlimit(60)]
    pub fn resolve(id: &Identifier, store: &crate::store::MemStore) -> (r: Result<
        Sequence,
        ResolveError,
    >)
        ensures
            match r {
                Ok(s) => spec_resolve(id@, store@) == Ok::<SequenceV, ResolveError>(s@),
                Err(e) => spec_resolve(id@, store@) == Err::<SequenceV, ResolveError>(e),
            },
    {
        let bytes = match store.get(id) {
            Ok(b) => b,
            Err(e) => {
                return Err(ResolveError::Store(e));
            },
        };
        let root = match crate::codec::decode_value(&bytes) {
            Ok(v) => v,
            Err(_) => {
                return Err(ResolveError::Decode);
            },
        };
        let (address, sequence, ids) = match parse_sequence_record(&root) {
            Ok(p) => p,
            Err(e) => {
                return Err(ResolveError::Schema(e));
            },
        };
        let ghost idsv = id_views(ids@);
        let mut annotations: Vec<Annotation> = Vec::new();
        let mut k: usize = 0;
        proof {
            lemma_resolved_prepend_nil(spec_resolve_annots(idsv, store@));
            assert(idsv.skip(0) =~= idsv);
            assert(annot_views(annotations@) =~= Seq::<AnnotationV>::empty());
        }
        while k < ids.len()
            invariant
                idsv == id_views(ids@),
                idsv.len() == ids@.len(),
                k <= ids@.len(),
                annotations@.len() == k,
                spec_resolve_annots(idsv, store@) == resolved_prepend(
                    annot_views(annotations@),
                    spec_resolve_annots(idsv.skip(k as int), store@),
                ),
                ({
                    match spec_resolve_annots(idsv, store@) {
                        Ok(annots) => spec_resolve(id@, store@) == Ok::<SequenceV, ResolveError>(
                            SequenceV {
                                address: address@,
                                sequence: sequence@,
                                annotations: annots,
                            },
                        ),
                        Err(p) => spec_resolve(id@, store@) == Err::<SequenceV, ResolveError>(
                            ResolveError::Annotation(p.0 as usize, p.1),
                        ),
                    }
                }),
            decreases ids@.len() - k,
        {
            proof {
                assert(idsv.skip(k as int)[0] == idsv[k as int]);
                assert(idsv.skip(k as int).drop_first() =~= idsv.skip(k as int + 1));
            }
            let child_bytes = match store.get(&ids[k]) {
                Ok(b) => b,
                Err(e) => {
                    proof {
                        assert(spec_child(idsv[k as int], store@) == Err::<AnnotationV, ItemError>(
                            ItemError::Store(e),
                        ));
                    }
                    return Err(ResolveError::Annotation(k, ItemError::Store(e)));
                },
            };
            let child_value = match crate::codec::decode_value(&child_bytes) {
                Ok(v) => v,
                Err(_) => {
                    return Err(ResolveError::Annotation(k, ItemError::Decode));
                },
            };
            match Annotation::from_structured(&child_value) {
                Ok(a) => {
                    let ghost prev = annotations@;
                    annotations.push(a);
                    proof {
                        assert(annot_views(annotations@) =~= annot_views(prev).push(
                            annot_views(annotations@)[k as int],
                        ));
                        lemma_resolved_prepend_step(
                            annot_views(prev),
                            annot_views(annotations@)[k as int],
                            spec_resolve_annots(idsv.skip(k as int + 1), store@),
                        );
                    }
                    k = k + 1;
                },
                Err(e) => {
                    return Err(ResolveError::Annotation(k, ItemError::Schema(e)));
                },
            }
        }
        proof {
            assert(idsv.skip(k as int) =~= Seq::<Seq<u8>>::empty());
            assert(spec_resolve_annots(idsv, store@) == Ok::<Seq<AnnotationV>, (int, ItemError)>(
                annot_views(annotations@),
            )) by {
                assert(annot_views(annotations@) + Seq::<AnnotationV>::empty() =~= annot_views(
                    annotations@,
                ));
            }
        }
        Ok(Sequence { address, sequence, annotations })
    }
}

/// Prefixing nothing changes nothing.
pub proof fn lemma_annots_prepend_nil(
    rest: (Result<Seq<Seq<u8>>, (int, crate::store::StoreError)>, Seq<(Seq<u8>, Seq<u8>)>),
)
    ensures
        annots_prepend(Seq::empty(), rest) == rest,
{
    match rest.0 {
        Ok(ids) => {
            assert(Seq::<Seq<u8>>::empty() + ids =~= ids);
        },
        Err(_) => {},
    }
}

/// Prefixes compose: prefixing one more identifier shifts the rest once.
pub proof fn lemma_annots_prepend_step(
    pre: Seq<Seq<u8>>,
    one: Seq<u8>,
    rest: (Result<Seq<Seq<u8>>, (int, crate::store::StoreError)>, Seq<(Seq<u8>, Seq<u8>)>),
)
    ensures
        annots_prepend(pre, annots_prepend(Seq::empty().push(one), rest)) == annots_prepend(
            pre.push(one),
            rest,
        ),
{
    match rest.0 {
        Ok(ids) => {
            assert(pre + (Seq::empty().push(one) + ids) =~= pre.push(one) + ids);
        },
        Err(_) => {},
    }
}

/// Prefixing nothing changes nothing.
pub proof fn lemma_resolved_prepend_nil(rest: Result<Seq<AnnotationV>, (int, ItemError)>)
    ensures
        resolved_prepend(Seq::empty(), rest) == rest,
{
    match rest {
        Ok(s) => {
            assert(Seq::<AnnotationV>::empty() + s =~= s);
        },
        Err(_) => {},
    }
}

/// Prefixes compose: prefixing one more annotation shifts the rest once.
pub proof fn lemma_resolved_prepend_step(
    pre: Seq<AnnotationV>,
    one: AnnotationV,
    rest: Result<Seq<AnnotationV>, (int, ItemError)>,
)
    ensures
        resolved_prepend(pre, resolved_prepend(Seq::empty().push(one), rest)) == resolved_prepend(
            pre.push(one),
            rest,
        ),
{
    match rest {
        Ok(s) => {
            assert(pre + (Seq::empty().push(one) + s) =~= pre.push(one) + s);
        },
        Err(_) => {},
    }
}

/// What a successful annotation build guarantees: one identifier per
/// annotation, in order, each derived from and resolving to that
/// annotation's encoded record; and no record already in the store is
/// disturbed.
pub proof fn lemma_build_annots_ok(annots: Seq<AnnotationV>, st: Seq<(Seq<u8>, Seq<u8>)>)
    ensures
        forall|key: Seq<u8>|
            crate::store::lookup(st, key) is Some ==> crate::store::lookup(
                #[trigger] spec_build_annots(annots, st).1,
                key,
            ) == crate::store::lookup(st, key),
        spec_build_annots(annots, st).0 matches Ok(ids) ==> ids.len() == annots.len() && (forall|
            j: int,
        |
            0 <= j < annots.len() ==> (#[trigger] ids[j]) == crate::store::id_of(
                crate::codec::enc(annot_value(annots[j])),
            ) && ids[j].len() <= crate::store::MAX_ID_BYTES && crate::store::lookup(
                spec_build_annots(annots, st).1,
                ids[j],
            ) == Some(crate::codec::enc(annot_value(annots[j])))),
    decreases annots.len(),
{
    if annots.len() == 0 {
    } else {
        let b0 = crate::codec::enc(annot_value(annots[0]));
        let step = crate::store::spec_put(st, b0);
        assert forall|key: Seq<u8>| crate::store::lookup(st, key) is Some implies
        crate::store::lookup(step.1, key) == crate::store::lookup(st, key) by {
            crate::store::lemma_put_preserves(st, b0, key);
        }
        match step.0 {
            Err(_) => {},
            Ok(k0) => {
                crate::store::lemma_put_preserves(st, b0, k0);
                lemma_build_annots_ok(annots.drop_first(), step.1);
                let rest = spec_build_annots(annots.drop_first(), step.1);
                match rest.0 {
                    Ok(ids2) => {
                        let ids = Seq::<Seq<u8>>::empty().push(k0) + ids2;
                        assert(spec_build_annots(annots, st).0 == Ok::<
                            Seq<Seq<u8>>,
                            (int, crate::store::StoreError),
                        >(ids));
                        assert forall|j: int| 0 <= j < annots.len() implies (#[trigger] ids[j])
                            == crate::store::id_of(crate::codec::enc(annot_value(annots[j])))
                            && ids[j].len() <= crate::store::MAX_ID_BYTES
                            && crate::store::lookup(spec_build_annots(annots, st).1, ids[j])
                            == Some(crate::codec::enc(annot_value(annots[j]))) by {
                            if j == 0 {
                                assert(ids[0] == k0);
                                assert(crate::store::lookup(step.1, k0) == Some(b0));
                            } else {
                                assert(ids[j] == ids2[j - 1]);
                                assert(annots.drop_first()[j - 1] == annots[j]);
                            }
                        }
                    },
                    Err(_) => {},
                }
            },
        }
    }
}

/// Building annotations whose records already sit in the store writes
/// nothing and yields the same identifiers again.
pub proof fn lemma_rebuild_annots(
    annots: Seq<AnnotationV>,
    ids: Seq<Seq<u8>>,
    st: Seq<(Seq<u8>, Seq<u8>)>,
)
    requires
        ids.len() == annots.len(),
        forall|j: int|
            0 <= j < annots.len() ==> (#[trigger] ids[j]) == crate::store::id_of(
                crate::codec::enc(annot_value(annots[j])),
            ) && ids[j].len() <= crate::store::MAX_ID_BYTES && crate::store::lookup(st, ids[j])
                == Some(crate::codec::enc(annot_value(annots[j]))),
    ensures
        spec_build_annots(annots, st) == (
            Ok::<Seq<Seq<u8>>, (int, crate::store::StoreError)>(ids),
            st,
        ),
    decreases annots.len(),
{
    if annots.len() == 0 {
        assert(ids =~= Seq::<Seq<u8>>::empty());
    } else {
        let b0 = crate::codec::enc(annot_value(annots[0]));
        assert(ids[0] == crate::store::id_of(b0));
        assert(crate::store::lookup(st, ids[0]) == Some(b0));
        assert(crate::store::spec_put(st, b0) == (
            Ok::<Seq<u8>, crate::store::StoreError>(ids[0]),
            st,
        ));
        assert forall|j: int| 0 <= j < annots.drop_first().len() implies (#[trigger] ids.drop_first()[j])
            == crate::store::id_of(crate::codec::enc(annot_value(annots.drop_first()[j])))
            && ids.drop_first()[j].len() <= crate::store::MAX_ID_BYTES && crate::store::lookup(
            st,
            ids.drop_first()[j],
        ) == Some(crate::codec::enc(annot_value(annots.drop_first()[j]))) by {
            assert(ids.drop_first()[j] == ids[j + 1]);
            assert(annots.drop_first()[j] == annots[j + 1]);
        }
        lemma_rebuild_annots(annots.drop_first(), ids.drop_first(), st);
        assert(Seq::<Seq<u8>>::empty().push(ids[0]) + ids.drop_first() =~= ids);
    }
}

/// Round trip of the sequence record's own schema: its structured value
/// parses back to exactly its parts.
pub proof fn lemma_seq_record_parse(address: Seq<char>, sequence: Seq<char>, ids: Seq<Seq<u8>>)
    ensures
        seq_from_value(seq_record_value(address, sequence, ids)) == Ok::<
            (Seq<char>, Seq<char>, Seq<Seq<u8>>),
            SchemaError,
        >((address, sequence, ids)),
{
    reveal_strlit("Type");
    reveal_strlit("sequence");
    reveal_strlit("Addr");
    reveal_strlit("Seq");
    reveal_strlit("Annots");
    let m = seq_record_value(address, sequence, ids)->Mapping_0;
    let m1 = m.drop_first();
    let m2 = m1.drop_first();
    let m3 = m2.drop_first();
    assert(m1[0] == m[1] && m1[1] == m[2] && m1[2] == m[3] && m1.len() == 3);
    assert(m2[0] == m[2] && m2[1] == m[3] && m2.len() == 2);
    assert(m3[0] == m[3] && m3.len() == 1);
    assert("Type"@.len() == 4 && "Addr"@.len() == 4 && "Seq"@.len() == 3 && "Annots"@.len() == 6);
    assert("Type"@[0] == 'T' && "Addr"@[0] == 'A' && "Seq"@[0] == 'S' && "Annots"@[1] == 'n'
        && "Addr"@[1] == 'd');
    assert("Type"@ != "Addr"@ && "Type"@ != "Seq"@ && "Type"@ != "Annots"@);
    assert("Addr"@ != "Seq"@ && "Addr"@ != "Annots"@);
    assert("Seq"@ != "Annots"@);
    assert(map_lookup(m, "Type"@) == Some(ValueV::Str("sequence"@)));
    assert(map_lookup(m, "Addr"@) == map_lookup(m1, "Addr"@));
    assert(map_lookup(m, "Addr"@) == Some(ValueV::Str(address)));
    assert(map_lookup(m, "Seq"@) == map_lookup(m1, "Seq"@) && map_lookup(m1, "Seq"@) == map_lookup(
        m2,
        "Seq"@,
    ));
    assert(map_lookup(m, "Seq"@) == Some(ValueV::Str(sequence)));
    assert(map_lookup(m, "Annots"@) == map_lookup(m1, "Annots"@) && map_lookup(m1, "Annots"@)
        == map_lookup(m2, "Annots"@) && map_lookup(m2, "Annots"@) == map_lookup(m3, "Annots"@));
    let links = Seq::new(ids.len(), |i: int| ValueV::Link(ids[i]));
    assert(map_lookup(m, "Annots"@) == Some(ValueV::List(links)));
    assert(all_links(links));
    assert(link_ids(links) =~= ids);
}

/// A well-formed sequence's record value, over identifiers the store
/// accepted, fits the codec.
pub proof fn lemma_record_value_valid(s: SequenceV, ids: Seq<Seq<u8>>)
    requires
        s.wf(),
        ids.len() <= u64::MAX,
        forall|j: int| 0 <= j < ids.len() ==> (#[trigger] ids[j]).len()
            <= crate::store::MAX_ID_BYTES,
    ensures
        crate::codec::valid_v(seq_record_value(s.address, s.sequence, ids)),
{
    lemma_keys_ascii();
    let m = seq_record_value(s.address, s.sequence, ids)->Mapping_0;
    let links = Seq::new(ids.len(), |i: int| ValueV::Link(ids[i]));
    assert(crate::codec::valid_v(ValueV::List(links))) by {
        assert forall|i: int| 0 <= i < links.len() implies crate::codec::valid_v(
            #[trigger] links[i],
        ) by {
            assert(links[i] == ValueV::Link(ids[i]));
        }
    }
    assert forall|i: int| 0 <= i < m.len() implies encode_utf8((#[trigger] m[i]).0).len()
        <= u64::MAX && crate::codec::valid_v(m[i].1) by {
        if i == 1 {
            assert(m[1] == ("Addr"@, ValueV::Str(s.address)));
        }
        if i == 2 {
            assert(m[2] == ("Seq"@, ValueV::Str(s.sequence)));
        }
        if i == 3 {
            assert(m[3] == ("Annots"@, ValueV::List(links)));
        }
    }
}

/// Children that all resolve, resolve as a list, in order.
pub proof fn lemma_resolve_annots_ok(
    ids: Seq<Seq<u8>>,
    avs: Seq<AnnotationV>,
    st: Seq<(Seq<u8>, Seq<u8>)>,
)
    requires
        ids.len() == avs.len(),
        forall|j: int|
            0 <= j < ids.len() ==> spec_child(#[trigger] ids[j], st) == Ok::<
                AnnotationV,
                ItemError,
            >(avs[j]),
    ensures
        spec_resolve_annots(ids, st) == Ok::<Seq<AnnotationV>, (int, ItemError)>(avs),
    decreases ids.len(),
{
    if ids.len() == 0 {
        assert(avs =~= Seq::<AnnotationV>::empty());
    } else {
        assert(spec_child(ids[0], st) == Ok::<AnnotationV, ItemError>(avs[0]));
        assert forall|j: int| 0 <= j < ids.drop_first().len() implies spec_child(
            #[trigger] ids.drop_first()[j],
            st,
        ) == Ok::<AnnotationV, ItemError>(avs.drop_first()[j]) by {
            assert(ids.drop_first()[j] == ids[j + 1]);
            assert(avs.drop_first()[j] == avs[j + 1]);
        }
        lemma_resolve_annots_ok(ids.drop_first(), avs.drop_first(), st);
        assert(Seq::<AnnotationV>::empty().push(avs[0]) + avs.drop_first() =~= avs);
    }
}

/// Round trip: a well-formed sequence that builds successfully resolves,
/// from the identifier the build returned and against the store the
/// build left, to a sequence equal to the original: same address, same
/// sequence text, and the same annotations in their original order.
pub proof fn lemma_build_resolve_round_trip(s: SequenceV, st: Seq<(Seq<u8>, Seq<u8>)>)
    requires
        s.wf(),
    ensures
        spec_build(s, st).0 matches Ok(id) ==> spec_resolve(id, spec_build(s, st).1) == Ok::<
            SequenceV,
            ResolveError,
        >(s),
{
    let built = spec_build_annots(s.annotations, st);
    lemma_build_annots_ok(s.annotations, st);
    if built.0 is Ok {
        let ids = built.0->Ok_0;
        let rv = seq_record_value(s.address, s.sequence, ids);
        let brec = crate::codec::enc(rv);
        let step = crate::store::spec_put(built.1, brec);
        if step.0 is Ok {
            let id = step.0->Ok_0;
            crate::store::lemma_put_preserves(built.1, brec, id);
            assert(crate::store::lookup(step.1, id) == Some(brec));
            assert forall|j: int| 0 <= j < ids.len() implies crate::store::lookup(
                step.1,
                #[trigger] ids[j],
            ) == Some(crate::codec::enc(annot_value(s.annotations[j]))) by {
                crate::store::lemma_put_preserves(built.1, brec, ids[j]);
            }
            lemma_record_value_valid(s, ids);
            crate::codec::lemma_dec_enc(rv);
            lemma_seq_record_parse(s.address, s.sequence, ids);
            assert forall|j: int| 0 <= j < ids.len() implies spec_child(#[trigger] ids[j], step.1)
                == Ok::<AnnotationV, ItemError>(s.annotations[j]) by {
                let a = s.annotations[j];
                lemma_annot_value_valid(a);
                crate::codec::lemma_dec_enc(annot_value(a));
                lemma_annotation_round_trip(a);
            }
            lemma_resolve_annots_ok(ids, s.annotations, step.1);
            assert(spec_resolve(id, step.1) == Ok::<SequenceV, ResolveError>(
                SequenceV {
                    address: s.address,
                    sequence: s.sequence,
                    annotations: s.annotations,
                },
            ));
            assert(SequenceV {
                address: s.address,
                sequence: s.sequence,
                annotations: s.annotations,
            } == s);
        }
    }
}

/// Order preservation: resolving what a build stored hands the
/// annotations back at exactly their original indexes, whatever order
/// the store received or serves records in.
pub proof fn lemma_resolve_preserves_order(s: SequenceV, st: Seq<(Seq<u8>, Seq<u8>)>)
    requires
        s.wf(),
    ensures
        spec_build(s, st).0 matches Ok(id) ==> (spec_resolve(id, spec_build(s, st).1) matches Ok(
            s2,
        ) && s2.annotations.len() == s.annotations.len() && (forall|j: int|
            0 <= j < s.annotations.len() ==> s2.annotations[j] == s.annotations[j])),
{
    lemma_build_resolve_round_trip(s, st);
}

/// Determinism: building the same sequence again, against the store the
/// first build left, writes nothing further and yields the same
/// identifier.
pub proof fn lemma_build_deterministic(s: SequenceV, st: Seq<(Seq<u8>, Seq<u8>)>)
    requires
        s.wf(),
    ensures
        spec_build(s, st).0 matches Ok(id) ==> spec_build(s, spec_build(s, st).1) == (
            Ok::<Seq<u8>, BuildError>(id),
            spec_build(s, st).1,
        ),
{
    let built = spec_build_annots(s.annotations, st);
    lemma_build_annots_ok(s.annotations, st);
    if built.0 is Ok {
        let ids = built.0->Ok_0;
        let rv = seq_record_value(s.address, s.sequence, ids);
        let brec = crate::codec::enc(rv);
        let step = crate::store::spec_put(built.1, brec);
        if step.0 is Ok {
            let id = step.0->Ok_0;
            let st1 = step.1;
            crate::store::lemma_put_preserves(built.1, brec, id);
            assert forall|j: int| 0 <= j < ids.len() implies crate::store::lookup(
                st1,
                #[trigger] ids[j],
            ) == Some(crate::codec::enc(annot_value(s.annotations[j]))) by {
                crate::store::lemma_put_preserves(built.1, brec, ids[j]);
            }
            lemma_rebuild_annots(s.annotations, ids, st1);
            assert(id == crate::store::id_of(brec));
            assert(crate::store::lookup(st1, id) == Some(brec));
            assert(crate::store::spec_put(st1, brec) == (
                Ok::<Seq<u8>, crate::store::StoreError>(id),
                st1,
            ));
        }
    }
}

/// Partial failure: when every link before index `k` resolves and the
/// link at `k` is unknown to the store, resolving the list fails exactly
/// with index `k` and a not-found store error.
pub proof fn lemma_resolve_missing_child(ids: Seq<Seq<u8>>, st: Seq<(Seq<u8>, Seq<u8>)>, k: int)
    requires
        0 <= k < ids.len(),
        forall|j: int| 0 <= j < k ==> spec_child(#[trigger] ids[j], st) is Ok,
        crate::store::lookup(st, ids[k]) is None,
    ensures
        spec_resolve_annots(ids, st) == Err::<Seq<AnnotationV>, (int, ItemError)>(
            (k, ItemError::Store(crate::store::StoreError::NotFound)),
        ),
    decreases k,
{
    if k == 0 {
        assert(spec_child(ids[0], st) == Err::<AnnotationV, ItemError>(
            ItemError::Store(crate::store::StoreError::NotFound),
        ));
    } else {
        assert(spec_child(ids[0], st) is Ok);
        assert forall|j: int| 0 <= j < k - 1 implies spec_child(
            #[trigger] ids.drop_first()[j],
            st,
        ) is Ok by {
            assert(ids.drop_first()[j] == ids[j + 1]);
        }
        assert(ids.drop_first()[k - 1] == ids[k]);
        lemma_resolve_missing_child(ids.drop_first(), st, k - 1);
    }
}
} // verus!
