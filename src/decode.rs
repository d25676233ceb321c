//! Decoding a backup manifest from the value that `jaded` reads out of a Java
//! object stream.
//!
//! Scalar and object fields go through `jaded`'s conversions. The two keyed
//! collections of a node are read by hand from the object's first annotation:
//! a bucket-table size (skipped), an entry count `n`, then `n` key and value
//! objects in stream order.
use vstd::prelude::*;

use jaded::FromJava;

use crate::identifier::SingleHashIdentifier;
use crate::manifest::{
    keys_of, keys_unique, map_insert, JavaHashMap, ObjectCollection2, ObjectElement, SavedIncBackupV1,
};

verus! {

#[verifier::external_type_specification]
#[verifier::external_body]
pub struct ExValue(jaded::Value);

#[verifier::external_type_specification]
#[verifier::external_body]
pub struct ExObjectData(jaded::ObjectData);

#[verifier::external_type_specification]
#[verifier::external_body]
pub struct ExAnnotationIter<'a>(jaded::AnnotationIter<'a>);

#[verifier::external_type_specification]
#[verifier::external_body]
pub struct ExConversionError(jaded::ConversionError);

/// The object data of a value that `jaded` holds as an object.
pub uninterp spec fn object_data_of(v: jaded::Value) -> Option<jaded::ObjectData>;

/// The value of a field of an object, if written.
pub uninterp spec fn field_of(o: jaded::ObjectData, name: Seq<char>) -> Option<jaded::Value>;

/// The text of a value that converts to a `String`.
pub uninterp spec fn string_of(v: jaded::Value) -> Option<Seq<char>>;

/// The number of a value that converts to an `i64`.
pub uninterp spec fn long_of(v: jaded::Value) -> Option<i64>;

/// The number of a value that converts to an `i32`.
pub uninterp spec fn int_of(v: jaded::Value) -> Option<i32>;

/// The bytes of a value that converts to a `Vec<u8>`.
pub uninterp spec fn bytes_of(v: jaded::Value) -> Option<Seq<u8>>;

/// The reader over an annotation of an object, if the object has it.
pub uninterp spec fn annotation_of(o: jaded::ObjectData, i: usize) -> Option<jaded::AnnotationIter<'static>>;

/// The next `int` of block data of an annotation, and the reader past it.
pub uninterp spec fn next_int(it: jaded::AnnotationIter<'static>) -> Option<(i32, jaded::AnnotationIter<'static>)>;

/// The next object of an annotation, and the reader past it.
pub uninterp spec fn next_object(it: jaded::AnnotationIter<'static>) -> Option<(jaded::Value, jaded::AnnotationIter<'static>)>;

/// Relies on the variants of `jaded::Value`: the object data of an object value.
#[verifier::external_body]
fn as_object(v: &jaded::Value) -> (r: Option<&jaded::ObjectData>)
    ensures
        match r {
            Some(o) => object_data_of(*v) == Some(*o),
            None => object_data_of(*v) is None,
        },
{
    match v {
        jaded::Value::Object(o) => Some(o),
        _ => None,
    }
}

/// Relies on `jaded::ObjectData::get_field`: the value of a field, if written.
#[verifier::external_body]
fn get_field<'a>(o: &'a jaded::ObjectData, name: &str) -> (r: Option<&'a jaded::Value>)
    ensures
        match r {
            Some(v) => field_of(*o, name@) == Some(*v),
            None => field_of(*o, name@) is None,
        },
{
    o.get_field(name)
}

/// Relies on `jaded`'s `FromJava for String`: the text of a Java string.
#[verifier::external_body]
fn string_from(v: &jaded::Value) -> (r: Result<String, jaded::ConversionError>)
    ensures
        match r {
            Ok(s) => string_of(*v) == Some(s@),
            Err(_) => string_of(*v) is None,
        },
{
    String::from_value(v)
}

/// Relies on `jaded`'s `FromJava for i64`: a `long`, primitive or boxed.
#[verifier::external_body]
fn long_from(v: &jaded::Value) -> (r: Result<i64, jaded::ConversionError>)
    ensures
        match r {
            Ok(x) => long_of(*v) == Some(x),
            Err(_) => long_of(*v) is None,
        },
{
    i64::from_value(v)
}

/// Relies on `jaded`'s `FromJava for i32`: an `int`, primitive or boxed.
#[verifier::external_body]
fn int_from(v: &jaded::Value) -> (r: Result<i32, jaded::ConversionError>)
    ensures
        match r {
            Ok(x) => int_of(*v) == Some(x),
            Err(_) => int_of(*v) is None,
        },
{
    i32::from_value(v)
}

/// Relies on `jaded`'s `FromJava for Vec<u8>`: the bytes of a Java `byte[]`.
#[verifier::external_body]
fn bytes_from(v: &jaded::Value) -> (r: Result<Vec<u8>, jaded::ConversionError>)
    ensures
        match r {
            Ok(b) => bytes_of(*v) == Some(b@),
            Err(_) => bytes_of(*v) is None,
        },
{
    Vec::<u8>::from_value(v)
}

/// Relies on `jaded::ObjectData::get_annotation`: the data that the class at
/// `i` of the object's hierarchy wrote after its fields, if any.
#[verifier::external_body]
fn get_annotation<'a>(o: &'a jaded::ObjectData, i: usize) -> (r: Option<jaded::AnnotationIter<'a>>)
    ensures
        r == annotation_of(*o, i),
{
    o.get_annotation(i)
}

/// Relies on `jaded::AnnotationIter::read_i32`: the next four bytes of block
/// data as a big-endian `int`.
#[verifier::external_body]
fn read_i32(it: &mut jaded::AnnotationIter) -> (r: Result<i32, jaded::ConversionError>)
    ensures
        match r {
            Ok(x) => next_int(*old(it)) == Some((x, *final(it))),
            Err(_) => next_int(*old(it)) is None,
        },
{
    it.read_i32()
}

/// Relies on `jaded::AnnotationIter::read_object`: the next object of the
/// annotation.
#[verifier::external_body]
fn read_object<'a>(it: &mut jaded::AnnotationIter<'a>) -> (r: Result<&'a jaded::Value, jaded::ConversionError>)
    ensures
        match r {
            Ok(v) => next_object(*old(it)) == Some((*v, *final(it))),
            Err(_) => next_object(*old(it)) is None,
        },
{
    it.read_object()
}

/// How deep collections may nest in a manifest.
pub const MAX_DEPTH: u32 = 1000;

/// What went wrong at the end of a decode error's field path.
#[derive(Debug)]
pub enum DecodeFailure {
    /// An object was expected.
    NotAnObject,
    /// The object lacks the field.
    MissingField,
    /// A keyed collection has no annotation to read its entries from.
    MissingAnnotation,
    /// A keyed collection gives a negative entry count.
    NegativeCount(i32),
    /// Collections nest deeper than `MAX_DEPTH`.
    TooDeep,
    /// The value does not convert: `jaded`'s reason.
    Conversion(jaded::ConversionError),
}

/// A manifest that does not decode: the field path to the offending value,
/// outermost first, and the failure there.
#[derive(Debug)]
pub struct DecodeError {
    pub path: Vec<String>,
    pub failure: DecodeFailure,
}

fn fail(failure: DecodeFailure) -> (r: DecodeError)
    ensures
        r.path@.len() == 0,
        r.failure == failure,
{
    DecodeError { path: Vec::new(), failure }
}

fn conversion(e: jaded::ConversionError) -> (r: DecodeError)
    ensures
        r.path@.len() == 0,
        r.failure is Conversion,
{
    fail(DecodeFailure::Conversion(e))
}

/// Puts `name` in front of the path of an error from inside the field `name`.
fn within(name: &str, e: DecodeError) -> (r: DecodeError)
    ensures
        r.path@.len() == e.path@.len() + 1,
        r.path@[0]@ == name@,
        forall|i: int| 0 <= i < e.path@.len() ==> r.path@[i + 1] == e.path@[i],
        r.failure == e.failure,
{
    let mut path = e.path;
    path.insert(0, String::from_str(name));
    DecodeError { path, failure: e.failure }
}

fn object_of(v: &jaded::Value) -> (r: Result<&jaded::ObjectData, DecodeError>)
    ensures
        match r {
            Ok(o) => object_data_of(*v) == Some(*o),
            Err(e) => object_data_of(*v) is None && e.path@.len() == 0 && e.failure is NotAnObject,
        },
{
    match as_object(v) {
        Some(o) => Ok(o),
        None => Err(fail(DecodeFailure::NotAnObject)),
    }
}

fn field<'a>(o: &'a jaded::ObjectData, name: &str) -> (r: Result<&'a jaded::Value, DecodeError>)
    ensures
        match r {
            Ok(v) => field_of(*o, name@) == Some(*v),
            Err(e) => field_of(*o, name@) is None && e.path@.len() == 1 && e.path@[0]@ == name@
                && e.failure is MissingField,
        },
{
    match get_field(o, name) {
        Some(v) => Ok(v),
        None => Err(within(name, fail(DecodeFailure::MissingField))),
    }
}

/// The text of a field, where it is written and converts.
pub open spec fn text_field(o: jaded::ObjectData, name: Seq<char>) -> Option<Seq<char>> {
    match field_of(o, name) {
        Some(v) => string_of(v),
        None => None,
    }
}

pub open spec fn long_field_of(o: jaded::ObjectData, name: Seq<char>) -> Option<i64> {
    match field_of(o, name) {
        Some(v) => long_of(v),
        None => None,
    }
}

pub open spec fn int_field_of(o: jaded::ObjectData, name: Seq<char>) -> Option<i32> {
    match field_of(o, name) {
        Some(v) => int_of(v),
        None => None,
    }
}

pub open spec fn bytes_field_of(o: jaded::ObjectData, name: Seq<char>) -> Option<Seq<u8>> {
    match field_of(o, name) {
        Some(v) => bytes_of(v),
        None => None,
    }
}

fn string_field(o: &jaded::ObjectData, name: &str) -> (r: Result<String, DecodeError>)
    ensures
        match r {
            Ok(s) => text_field(*o, name@) == Some(s@),
            Err(e) => text_field(*o, name@) is None && e.path@.len() >= 1 && e.path@[0]@ == name@,
        },
{
    let v = field(o, name)?;
    match string_from(v) {
        Ok(s) => Ok(s),
        Err(e) => Err(within(name, conversion(e))),
    }
}

fn long_field(o: &jaded::ObjectData, name: &str) -> (r: Result<i64, DecodeError>)
    ensures
        match r {
            Ok(x) => long_field_of(*o, name@) == Some(x),
            Err(e) => long_field_of(*o, name@) is None && e.path@.len() >= 1 && e.path@[0]@ == name@,
        },
{
    let v = field(o, name)?;
    match long_from(v) {
        Ok(x) => Ok(x),
        Err(e) => Err(within(name, conversion(e))),
    }
}

fn int_field(o: &jaded::ObjectData, name: &str) -> (r: Result<i32, DecodeError>)
    ensures
        match r {
            Ok(x) => int_field_of(*o, name@) == Some(x),
            Err(e) => int_field_of(*o, name@) is None && e.path@.len() >= 1 && e.path@[0]@ == name@,
        },
{
    let v = field(o, name)?;
    match int_from(v) {
        Ok(x) => Ok(x),
        Err(e) => Err(within(name, conversion(e))),
    }
}

/// `id` is what the `SingleHashIdentifier` object `v` holds.
pub open spec fn identifier_from(v: jaded::Value, id: SingleHashIdentifier) -> bool {
    match object_data_of(v) {
        Some(o) => text_field(o, "type"@) == Some(id.typ@) && bytes_field_of(o, "hash"@) == Some(id.hash@),
        None => false,
    }
}

pub open spec fn identifier_decodes(v: jaded::Value) -> bool {
    match object_data_of(v) {
        Some(o) => text_field(o, "type"@) is Some && bytes_field_of(o, "hash"@) is Some,
        None => false,
    }
}

/// Decodes a `SingleHashIdentifier` object: its `type` and its `hash`.
pub fn decode_identifier(v: &jaded::Value) -> (r: Result<SingleHashIdentifier, DecodeError>)
    ensures
        r is Ok <==> identifier_decodes(*v),
        r matches Ok(id) ==> identifier_from(*v, id),
        object_data_of(*v) is None ==> (r matches Err(e) && e.failure is NotAnObject),
{
    let o = object_of(v)?;
    let typ = string_field(o, "type")?;
    let hv = match field(o, "hash") {
        Ok(hv) => hv,
        Err(e) => return Err(e),
    };
    let hash = match bytes_from(hv) {
        Ok(b) => b,
        Err(e) => return Err(within("hash", conversion(e))),
    };
    Ok(SingleHashIdentifier { typ, hash })
}

/// `e` is what the `ObjectElement` object `v` holds.
pub open spec fn element_from(v: jaded::Value, e: ObjectElement) -> bool {
    match object_data_of(v) {
        Some(o) => text_field(o, "name"@) == Some(e.name@) && match field_of(o, "identifier"@) {
            Some(iv) => identifier_from(iv, e.identifier),
            None => false,
        },
        None => false,
    }
}

pub open spec fn element_decodes(v: jaded::Value) -> bool {
    match object_data_of(v) {
        Some(o) => text_field(o, "name"@) is Some && match field_of(o, "identifier"@) {
            Some(iv) => identifier_decodes(iv),
            None => false,
        },
        None => false,
    }
}

/// Decodes an `ObjectElement` object: its `name` and its `identifier`.
pub fn decode_element(v: &jaded::Value) -> (r: Result<ObjectElement, DecodeError>)
    ensures
        r is Ok <==> element_decodes(*v),
        r matches Ok(e) ==> element_from(*v, e),
        object_data_of(*v) is None ==> (r matches Err(e) && e.failure is NotAnObject),
{
    let o = object_of(v)?;
    let name = string_field(o, "name")?;
    let iv = match field(o, "identifier") {
        Ok(iv) => iv,
        Err(e) => return Err(e),
    };
    let identifier = match decode_identifier(iv) {
        Ok(i) => i,
        Err(e) => return Err(within("identifier", e)),
    };
    Ok(ObjectElement { name, identifier })
}

/// The entry count of a keyed collection and the reader at its first entry:
/// annotation 0 of the object, past the bucket-table size, which is skipped,
/// and past the count.
pub open spec fn entries_header(v: jaded::Value) -> Option<(i32, jaded::AnnotationIter<'static>)> {
    match object_data_of(v) {
        Some(o) => match annotation_of(o, 0) {
            Some(it0) => match next_int(it0) {
                Some((_, it1)) => next_int(it1),
                None => None,
            },
            None => None,
        },
        None => None,
    }
}

/// The next `n` key and value objects of an annotation, in stream order.
pub open spec fn read_pairs(it: jaded::AnnotationIter<'static>, n: nat) -> Option<Seq<(jaded::Value, jaded::Value)>>
    decreases n,
{
    if n == 0 {
        Some(Seq::empty())
    } else {
        match next_object(it) {
            Some((k, it1)) => match next_object(it1) {
                Some((v, it2)) => match read_pairs(it2, (n - 1) as nat) {
                    Some(rest) => Some(seq![(k, v)] + rest),
                    None => None,
                },
                None => None,
            },
            None => None,
        }
    }
}

/// The key and value objects of a keyed collection, in stream order.
pub open spec fn entries_of(v: jaded::Value) -> Option<Seq<(jaded::Value, jaded::Value)>> {
    match entries_header(v) {
        Some((n, it)) => if n >= 0 {
            read_pairs(it, n as nat)
        } else {
            None
        },
        None => None,
    }
}

pub open spec fn prepend(
    done: Seq<(jaded::Value, jaded::Value)>,
    rest: Option<Seq<(jaded::Value, jaded::Value)>>,
) -> Option<Seq<(jaded::Value, jaded::Value)>> {
    match rest {
        Some(r) => Some(done + r),
        None => None,
    }
}

/// The texts of the keys of the pairs.
pub open spec fn key_texts(ps: Seq<(jaded::Value, jaded::Value)>) -> Seq<Seq<char>> {
    ps.map_values(|p: (jaded::Value, jaded::Value)| string_of(p.0)->Some_0)
}

pub open spec fn keys_are_text(ps: Seq<(jaded::Value, jaded::Value)>) -> bool {
    forall|i: int| 0 <= i < ps.len() ==> (#[trigger] string_of(ps[i].0)) is Some
}

/// The keys once each, in the order of first occurrence.
pub open spec fn distinct_keys(ks: Seq<Seq<char>>) -> Seq<Seq<char>>
    decreases ks.len(),
{
    if ks.len() == 0 {
        Seq::empty()
    } else {
        let d = distinct_keys(ks.drop_last());
        if d.contains(ks.last()) {
            d
        } else {
            d.push(ks.last())
        }
    }
}

/// The position of the last occurrence of `k`, or -1.
pub open spec fn last_with_key(ks: Seq<Seq<char>>, k: Seq<char>) -> int
    decreases ks.len(),
{
    if ks.len() == 0 {
        -1
    } else if ks.last() == k {
        ks.len() - 1
    } else {
        last_with_key(ks.drop_last(), k)
    }
}

/// `m` holds the keyed collection `v` of elements: its distinct keys in the order
/// of first occurrence, each with the value of its last occurrence.
pub open spec fn elements_from(v: jaded::Value, m: Seq<(String, ObjectElement)>) -> bool {
    match entries_of(v) {
        Some(ps) => keys_are_text(ps) && keys_of(m) == distinct_keys(key_texts(ps)) && forall|j: int|
            0 <= j < m.len() ==> {
                let i = last_with_key(key_texts(ps), #[trigger] m[j].0@);
                0 <= i < ps.len() && element_from(ps[i].1, m[j].1)
            },
        None => false,
    }
}

pub open spec fn elements_decode(v: jaded::Value) -> bool {
    match entries_of(v) {
        Some(ps) => keys_are_text(ps) && forall|i: int|
            0 <= i < ps.len() ==> element_decodes(#[trigger] ps[i].1),
        None => false,
    }
}

/// What a keyed collection's header gives that is not a count of entries.
pub open spec fn header_failure(v: jaded::Value, e: DecodeError) -> bool {
    &&& object_data_of(v) is None ==> e.failure is NotAnObject
    &&& match object_data_of(v) {
        Some(o) => annotation_of(o, 0) is None ==> e.failure is MissingAnnotation,
        None => true,
    }
    &&& match entries_header(v) {
        Some((n, _)) => n < 0 ==> e.failure == DecodeFailure::NegativeCount(n),
        None => true,
    }
}

/// Opens the entries of a keyed collection: the annotation of its first class,
/// past the bucket-table size, and the entry count.
fn open_entries(v: &jaded::Value) -> (r: Result<(jaded::AnnotationIter, u32), DecodeError>)
    ensures
        match r {
            Ok((it, n)) => entries_header(*v) == Some((n as i32, it)) && n <= i32::MAX,
            Err(e) => e.path@.len() == 0 && header_failure(*v, e) && entries_of(*v) is None,
        },
{
    let o = object_of(v)?;
    let mut it = match get_annotation(o, 0) {
        Some(it) => it,
        None => return Err(fail(DecodeFailure::MissingAnnotation)),
    };
    match read_i32(&mut it) {
        Ok(_) => {},
        Err(e) => return Err(conversion(e)),
    }
    let n = match read_i32(&mut it) {
        Ok(n) => n,
        Err(e) => return Err(conversion(e)),
    };
    if n < 0 {
        return Err(fail(DecodeFailure::NegativeCount(n)));
    }
    Ok((it, n as u32))
}

proof fn lemma_map_insert<V>(old: Seq<(String, V)>, new: Seq<(String, V)>, key: String, value: V)
    requires
        keys_unique(old),
        match keys_of(old).index_of_first(key@) {
            Some(i) => new == old.update(i, (key, value)),
            None => new == old.push((key, value)),
        },
    ensures
        keys_of(new) == (if keys_of(old).contains(key@) {
            keys_of(old)
        } else {
            keys_of(old).push(key@)
        }),
        forall|j: int|
            0 <= j < new.len() ==> (#[trigger] new[j].0@ == key@ ==> new[j].1 == value) && (new[j].0@
                != key@ ==> j < old.len() && new[j] == old[j]),
{
    keys_of(old).index_of_first_ensures(key@);
    match keys_of(old).index_of_first(key@) {
        Some(i) => {
            assert(keys_of(old)[i] == key@);
            assert(keys_of(new) =~= keys_of(old));
            assert forall|j: int| 0 <= j < new.len() && #[trigger] new[j].0@ == key@ implies j == i by {
                if j != i {
                    assert(old[j].0@ == key@);
                    assert(keys_of(old)[j] == key@);
                }
            }
            assert forall|j: int| 0 <= j < new.len() && j != i implies #[trigger] new[j] == old[j] by {}
        },
        None => {
            assert(keys_of(new) =~= keys_of(old).push(key@));
            assert forall|j: int| 0 <= j < old.len() implies #[trigger] old[j].0@ != key@ by {
                if old[j].0@ == key@ {
                    assert(keys_of(old)[j] == key@);
                }
            }
            assert forall|j: int| 0 <= j < old.len() implies #[trigger] new[j] == old[j] by {}
        },
    }
}

proof fn lemma_last_push(ks: Seq<Seq<char>>, k: Seq<char>, x: Seq<char>)
    ensures
        last_with_key(ks.push(k), x) == if x == k {
            ks.len() as int
        } else {
            last_with_key(ks, x)
        },
        distinct_keys(ks.push(k)) == if distinct_keys(ks).contains(k) {
            distinct_keys(ks)
        } else {
            distinct_keys(ks).push(k)
        },
{
    assert(ks.push(k).drop_last() =~= ks);
}

proof fn lemma_read_step(it: jaded::AnnotationIter<'static>, n: nat)
    requires
        n > 0,
    ensures
        read_pairs(it, n) == match next_object(it) {
            Some((k, it1)) => match next_object(it1) {
                Some((v, it2)) => match read_pairs(it2, (n - 1) as nat) {
                    Some(rest) => Some(seq![(k, v)] + rest),
                    None => None,
                },
                None => None,
            },
            None => None,
        },
{
}

/// Reads the key of the next entry.
fn read_key(it: &mut jaded::AnnotationIter) -> (r: Result<(String, Ghost<jaded::Value>), DecodeError>)
    ensures
        match r {
            Ok((k, kv)) => next_object(*old(it)) == Some((kv@, *final(it))) && string_of(kv@) == Some(k@),
            Err(_) => next_object(*old(it)) matches Some((kv, _)) ==> string_of(kv) is None,
        },
{
    match read_object(it) {
        Ok(kv) => match string_from(kv) {
            Ok(k) => Ok((k, Ghost(*kv))),
            Err(e) => Err(conversion(e)),
        },
        Err(e) => Err(conversion(e)),
    }
}

/// `c` is what the `ObjectCollection2` object `v`, `depth` levels below the
/// root, holds.
pub open spec fn collection_from(v: jaded::Value, c: ObjectCollection2, depth: int) -> bool
    decreases MAX_DEPTH - depth, 1nat,
{
    if depth < 0 || depth >= MAX_DEPTH {
        false
    } else {
        match object_data_of(v) {
            Some(o) => text_field(o, "name"@) == Some(c.name@) && match field_of(o, "elements"@) {
                Some(ev) => elements_from(ev, c.elements@),
                None => false,
            } && match field_of(o, "subCollections"@) {
                Some(sv) => subs_from(sv, c.sub_collections@, depth),
                None => false,
            },
            None => false,
        }
    }
}

/// `m` holds the keyed collection `v` of sub-collections of a node `depth`
/// levels below the root, as `elements_from` says of elements.
pub open spec fn subs_from(v: jaded::Value, m: Seq<(String, ObjectCollection2)>, depth: int) -> bool
    decreases MAX_DEPTH - depth, 0nat,
{
    if depth < 0 || depth >= MAX_DEPTH {
        false
    } else {
        match entries_of(v) {
            Some(ps) => keys_are_text(ps) && keys_of(m) == distinct_keys(key_texts(ps)) && forall|j: int|
                0 <= j < m.len() ==> {
                    let i = last_with_key(key_texts(ps), #[trigger] m[j].0@);
                    0 <= i < ps.len() && collection_from(ps[i].1, m[j].1, depth + 1)
                },
            None => false,
        }
    }
}

pub open spec fn collection_decodes(v: jaded::Value, depth: int) -> bool
    decreases MAX_DEPTH - depth, 1nat,
{
    if depth < 0 || depth >= MAX_DEPTH {
        false
    } else {
        match object_data_of(v) {
            Some(o) => text_field(o, "name"@) is Some && match field_of(o, "elements"@) {
                Some(ev) => elements_decode(ev),
                None => false,
            } && match field_of(o, "subCollections"@) {
                Some(sv) => subs_decode(sv, depth),
                None => false,
            },
            None => false,
        }
    }
}

pub open spec fn subs_decode(v: jaded::Value, depth: int) -> bool
    decreases MAX_DEPTH - depth, 0nat,
{
    if depth < 0 || depth >= MAX_DEPTH {
        false
    } else {
        match entries_of(v) {
            Some(ps) => keys_are_text(ps) && forall|i: int|
                0 <= i < ps.len() ==> collection_decodes(#[trigger] ps[i].1, depth + 1),
            None => false,
        }
    }
}

/// Decodes the keyed collection of elements of a node: its distinct keys in
/// stream order, each with the value of its last entry.
pub fn decode_elements(v: &jaded::Value) -> (r: Result<JavaHashMap<String, ObjectElement>, DecodeError>)
    ensures
        r is Ok <==> elements_decode(*v),
        r matches Ok(m) ==> keys_unique(m@) && elements_from(*v, m@),
        r matches Err(e) ==> (entries_of(*v) is None ==> header_failure(*v, e)),
{
    let (mut it, n) = match open_entries(v) {
        Ok(x) => x,
        Err(e) => return Err(e),
    };
    let ghost it0 = it;
    let mut map: JavaHashMap<String, ObjectElement> = Vec::new();
    let ghost mut done: Seq<(jaded::Value, jaded::Value)> = Seq::empty();
    let mut i: u32 = 0;
    assert(keys_of(map@) =~= distinct_keys(key_texts(done)));
    while i < n
        invariant
            entries_header(*v) == Some((n as i32, it0)),
            n <= i32::MAX,
            i <= n,
            read_pairs(it0, n as nat) == prepend(done, read_pairs(it, (n - i) as nat)),
            done.len() == i,
            keys_are_text(done),
            forall|k: int| 0 <= k < i ==> element_decodes(#[trigger] done[k].1),
            keys_unique(map@),
            keys_of(map@) == distinct_keys(key_texts(done)),
            forall|j: int|
                0 <= j < map@.len() ==> {
                    let x = last_with_key(key_texts(done), #[trigger] map@[j].0@);
                    0 <= x < i && element_from(done[x].1, map@[j].1)
                },
        decreases n - i,
    {
        let ghost it_before = it;
        proof {
            lemma_read_step(it_before, (n - i) as nat);
        }
        let (k, kv) = match read_key(&mut it) {
            Ok(x) => x,
            Err(e) => {
                proof {
                    assert(entries_of(*v) == read_pairs(it0, n as nat));
                    if let Some(rest) = read_pairs(it_before, (n - i) as nat) {
                        let all = done + rest;
                        assert(entries_of(*v) == Some(all));
                        assert(all[i as int] == rest[0]);
                        assert(string_of(all[i as int].0) is None);
                    }
                    assert(!elements_decode(*v));
                }
                return Err(e);
            },
        };
        let ghost it_mid = it;
        let ev = match read_object(&mut it) {
            Ok(ev) => ev,
            Err(e) => {
                proof {
                    assert(!elements_decode(*v));
                }
                return Err(conversion(e));
            },
        };
        let ghost it_after = it;
        let x = match decode_element(ev) {
            Ok(x) => x,
            Err(e) => {
                proof {
                    assert(entries_of(*v) == read_pairs(it0, n as nat));
                    if let Some(rest) = read_pairs(it_after, (n - i - 1) as nat) {
                        let all = done + (seq![(kv@, *ev)] + rest);
                        assert(read_pairs(it_before, (n - i) as nat) == Some(seq![(kv@, *ev)] + rest));
                        assert(entries_of(*v) == Some(all));
                        assert(all[i as int] == (kv@, *ev));
                        assert(!element_decodes(all[i as int].1));
                    } else {
                        assert(read_pairs(it_before, (n - i) as nat) is None);
                    }
                    assert(!elements_decode(*v));
                }
                return Err(e);
            },
        };
        let ghost d0 = done;
        let ghost m0 = map@;
        let ghost kg = k;
        let ghost xg = x;
        proof {
            done = done.push((kv@, *ev));
            assert(read_pairs(it0, n as nat) == prepend(done, read_pairs(it, (n - i - 1) as nat))) by {
                if let Some(rest) = read_pairs(it, (n - i - 1) as nat) {
                    assert(d0 + (seq![(kv@, *ev)] + rest) =~= done + rest);
                }
            }
            assert(key_texts(done) =~= key_texts(d0).push(k@));
            assert(keys_are_text(done)) by {
                assert forall|q: int| 0 <= q < done.len() implies (#[trigger] string_of(done[q].0)) is Some by {
                    if q < i {
                        assert(done[q] == d0[q]);
                    }
                }
            }
        }
        map_insert(&mut map, k, x);
        proof {
            lemma_map_insert(m0, map@, kg, xg);
            lemma_last_push(key_texts(d0), kg@, kg@);
            assert forall|q: int| 0 <= q < i + 1 implies element_decodes(#[trigger] done[q].1) by {
                if q < i {
                    assert(done[q] == d0[q]);
                }
            }
            assert forall|j: int| 0 <= j < map@.len() implies {
                let x = last_with_key(key_texts(done), #[trigger] map@[j].0@);
                0 <= x < i + 1 && element_from(done[x].1, map@[j].1)
            } by {
                let key = map@[j].0@;
                lemma_last_push(key_texts(d0), kg@, key);
                if key != kg@ {
                    assert(map@[j] == m0[j]);
                    let x = last_with_key(key_texts(d0), key);
                    assert(done[x] == d0[x]);
                }
            }
        }
        i = i + 1;
    }
    proof {
        assert(read_pairs(it, 0) == Some(Seq::<(jaded::Value, jaded::Value)>::empty()));
        assert(done + Seq::<(jaded::Value, jaded::Value)>::empty() =~= done);
        assert(entries_of(*v) == Some(done));
    }
    Ok(map)
}

/// Decodes the keyed collection of sub-collections of a node, `depth` levels
/// below the root: its distinct keys in stream order, each with the value of
/// its last entry.
pub fn decode_sub_collections(v: &jaded::Value, depth: u32) -> (r: Result<JavaHashMap<String, ObjectCollection2>, DecodeError>)
    requires
        depth < MAX_DEPTH,
    ensures
        r is Ok <==> subs_decode(*v, depth as int),
        r matches Ok(m) ==> keys_unique(m@) && subs_from(*v, m@, depth as int),
        r matches Err(e) ==> (entries_of(*v) is None ==> header_failure(*v, e)),
    decreases MAX_DEPTH - depth, 0nat,
{
    let (mut it, n) = match open_entries(v) {
        Ok(x) => x,
        Err(e) => return Err(e),
    };
    let ghost it0 = it;
    let mut map: JavaHashMap<String, ObjectCollection2> = Vec::new();
    let ghost mut done: Seq<(jaded::Value, jaded::Value)> = Seq::empty();
    let mut i: u32 = 0;
    assert(keys_of(map@) =~= distinct_keys(key_texts(done)));
    while i < n
        invariant
            depth < MAX_DEPTH,
            entries_header(*v) == Some((n as i32, it0)),
            n <= i32::MAX,
            i <= n,
            read_pairs(it0, n as nat) == prepend(done, read_pairs(it, (n - i) as nat)),
            done.len() == i,
            keys_are_text(done),
            forall|k: int| 0 <= k < i ==> collection_decodes(#[trigger] done[k].1, depth + 1),
            keys_unique(map@),
            keys_of(map@) == distinct_keys(key_texts(done)),
            forall|j: int|
                0 <= j < map@.len() ==> {
                    let x = last_with_key(key_texts(done), #[trigger] map@[j].0@);
                    0 <= x < i && collection_from(done[x].1, map@[j].1, depth + 1)
                },
        decreases n - i,
    {
        let ghost it_before = it;
        proof {
            lemma_read_step(it_before, (n - i) as nat);
        }
        let (k, kv) = match read_key(&mut it) {
            Ok(x) => x,
            Err(e) => {
                proof {
                    assert(entries_of(*v) == read_pairs(it0, n as nat));
                    if let Some(rest) = read_pairs(it_before, (n - i) as nat) {
                        let all = done + rest;
                        assert(entries_of(*v) == Some(all));
                        assert(all[i as int] == rest[0]);
                        assert(string_of(all[i as int].0) is None);
                    }
                    assert(!subs_decode(*v, depth as int));
                }
                return Err(e);
            },
        };
        let ghost it_mid = it;
        let ev = match read_object(&mut it) {
            Ok(ev) => ev,
            Err(e) => {
                proof {
                    assert(!subs_decode(*v, depth as int));
                }
                return Err(conversion(e));
            },
        };
        let ghost it_after = it;
        let x = match decode_collection(ev, depth + 1) {
            Ok(x) => x,
            Err(e) => {
                proof {
                    assert(entries_of(*v) == read_pairs(it0, n as nat));
                    if let Some(rest) = read_pairs(it_after, (n - i - 1) as nat) {
                        let all = done + (seq![(kv@, *ev)] + rest);
                        assert(read_pairs(it_before, (n - i) as nat) == Some(seq![(kv@, *ev)] + rest));
                        assert(entries_of(*v) == Some(all));
                        assert(all[i as int] == (kv@, *ev));
                        assert(!collection_decodes(all[i as int].1, depth + 1));
                    } else {
                        assert(read_pairs(it_before, (n - i) as nat) is None);
                    }
                    assert(!subs_decode(*v, depth as int));
                }
                return Err(e);
            },
        };
        let ghost d0 = done;
        let ghost m0 = map@;
        let ghost kg = k;
        let ghost xg = x;
        proof {
            done = done.push((kv@, *ev));
            assert(read_pairs(it0, n as nat) == prepend(done, read_pairs(it, (n - i - 1) as nat))) by {
                if let Some(rest) = read_pairs(it, (n - i - 1) as nat) {
                    assert(d0 + (seq![(kv@, *ev)] + rest) =~= done + rest);
                }
            }
            assert(key_texts(done) =~= key_texts(d0).push(k@));
            assert(keys_are_text(done)) by {
                assert forall|q: int| 0 <= q < done.len() implies (#[trigger] string_of(done[q].0)) is Some by {
                    if q < i {
                        assert(done[q] == d0[q]);
                    }
                }
            }
        }
        map_insert(&mut map, k, x);
        proof {
            lemma_map_insert(m0, map@, kg, xg);
            lemma_last_push(key_texts(d0), kg@, kg@);
            assert forall|q: int| 0 <= q < i + 1 implies collection_decodes(#[trigger] done[q].1, depth + 1) by {
                if q < i {
                    assert(done[q] == d0[q]);
                }
            }
            assert forall|j: int| 0 <= j < map@.len() implies {
                let x = last_with_key(key_texts(done), #[trigger] map@[j].0@);
                0 <= x < i + 1 && collection_from(done[x].1, map@[j].1, depth + 1)
            } by {
                let key = map@[j].0@;
                lemma_last_push(key_texts(d0), kg@, key);
                if key != kg@ {
                    assert(map@[j] == m0[j]);
                    let x = last_with_key(key_texts(d0), key);
                    assert(done[x] == d0[x]);
                }
            }
        }
        i = i + 1;
    }
    proof {
        assert(read_pairs(it, 0) == Some(Seq::<(jaded::Value, jaded::Value)>::empty()));
        assert(done + Seq::<(jaded::Value, jaded::Value)>::empty() =~= done);
        assert(entries_of(*v) == Some(done));
    }
    Ok(map)
}

/// Decodes an `ObjectCollection2` object `depth` levels below the root: its
/// `name`, `elements` and `subCollections`.
pub fn decode_collection(v: &jaded::Value, depth: u32) -> (r: Result<ObjectCollection2, DecodeError>)
    ensures
        r is Ok <==> collection_decodes(*v, depth as int),
        r matches Ok(c) ==> collection_from(*v, c, depth as int),
        depth >= MAX_DEPTH ==> (r matches Err(e) && e.failure is TooDeep),
        (depth < MAX_DEPTH && object_data_of(*v) is None) ==> (r matches Err(e) && e.failure is NotAnObject),
    decreases MAX_DEPTH - depth, 1nat,
{
    if depth >= MAX_DEPTH {
        return Err(fail(DecodeFailure::TooDeep));
    }
    let o = object_of(v)?;
    let name = string_field(o, "name")?;
    let ev = match field(o, "elements") {
        Ok(ev) => ev,
        Err(e) => return Err(e),
    };
    let elements = match decode_elements(ev) {
        Ok(m) => m,
        Err(e) => return Err(within("elements", e)),
    };
    let sv = match field(o, "subCollections") {
        Ok(sv) => sv,
        Err(e) => return Err(e),
    };
    let sub_collections = match decode_sub_collections(sv, depth) {
        Ok(m) => m,
        Err(e) => return Err(within("subCollections", e)),
    };
    Ok(ObjectCollection2 { name, elements, sub_collections })
}

/// An error where the root collection is absent or does not decode names it.
pub open spec fn missing_collection_error(v: jaded::Value, e: DecodeError) -> bool {
    match object_data_of(v) {
        Some(o) => match field_of(o, "objectCollection2"@) {
            None => e.failure is MissingField && e.path@.len() == 1 && e.path@[0]@
                == "objectCollection2"@,
            Some(cv) => !collection_decodes(cv, 0) ==> (e.path@.len() >= 1 && e.path@[0]@
                == "objectCollection2"@),
        },
        None => true,
    }
}

/// `b` is what the `SavedIncBackupV1` object `v` holds.
pub open spec fn backup_from(v: jaded::Value, b: SavedIncBackupV1) -> bool {
    match object_data_of(v) {
        Some(o) => (match field_of(o, "objectCollection2"@) {
            Some(cv) => collection_from(cv, b.object_collection2, 0),
            None => false,
        }) && text_field(o, "backupName"@) == Some(b.backup_name@) && long_field_of(o, "totalSizeBytes"@)
            == Some(b.total_size_bytes) && long_field_of(o, "increasedSizeBytes"@) == Some(
            b.increased_size_bytes,
        ) && int_field_of(o, "filesAdded"@) == Some(b.files_added) && int_field_of(o, "totalFiles"@)
            == Some(b.total_files),
        None => false,
    }
}

pub open spec fn backup_decodes(v: jaded::Value) -> bool {
    match object_data_of(v) {
        Some(o) => (match field_of(o, "objectCollection2"@) {
            Some(cv) => collection_decodes(cv, 0),
            None => false,
        }) && text_field(o, "backupName"@) is Some && long_field_of(o, "totalSizeBytes"@) is Some
            && long_field_of(o, "increasedSizeBytes"@) is Some && int_field_of(o, "filesAdded"@) is Some
            && int_field_of(o, "totalFiles"@) is Some,
        None => false,
    }
}

/// Decodes a backup manifest, a `SavedIncBackupV1` object. An error names the
/// field path to the value that does not decode.
pub fn decode_backup(v: &jaded::Value) -> (r: Result<SavedIncBackupV1, DecodeError>)
    ensures
        r is Ok <==> backup_decodes(*v),
        r matches Ok(b) ==> backup_from(*v, b),
        object_data_of(*v) is None ==> (r matches Err(e) && e.failure is NotAnObject && e.path@.len()
            == 0),
        r matches Err(e) ==> missing_collection_error(*v, e),
{
    let o = object_of(v)?;
    let cv = field(o, "objectCollection2")?;
    let object_collection2 = match decode_collection(cv, 0) {
        Ok(c) => c,
        Err(e) => return Err(within("objectCollection2", e)),
    };
    let backup_name = string_field(o, "backupName")?;
    let total_size_bytes = long_field(o, "totalSizeBytes")?;
    let increased_size_bytes = long_field(o, "increasedSizeBytes")?;
    let files_added = int_field(o, "filesAdded")?;
    let total_files = int_field(o, "totalFiles")?;
    Ok(
        SavedIncBackupV1 {
            object_collection2,
            backup_name,
            total_size_bytes,
            increased_size_bytes,
            files_added,
            total_files,
        },
    )
}

} // verus!
