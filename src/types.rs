//! Typed views of objects: null, int, text, link, list and map, with the
//! validators of their payloads and builders for the composite kinds.

use vstd::prelude::*;
use vstd::slice::slice_subrange;
use vstd::slice::slice_to_vec;
use vstd::string::StringSliceAdditionalSpecFns;
use crate::bytes::{
    be16, be16_bytes, be64, be64_bytes, is_utf8, lemma_be16_round_trip, lemma_be64_round_trip,
    push_u64_be, read_u16_be, read_u64_be,
};
use crate::object::{
    add_len, agree, entries_len, items_len, lemma_object_len_bounds, lemma_object_len_prefix,
    object_len, payload_len, splits_as, text_len, utf8, valid_object, Key, Object, ObjectError,
    ObjectKind, MAX_LEN,
};

verus! {

/// The object encodings of the first `k` elements at the start of a list body.
pub open spec fn items_of(b: Seq<u8>, k: nat) -> Seq<Seq<u8>>
    decreases k,
{
    if k == 0 {
        seq![]
    } else {
        match object_len(b) {
            Ok(n) => if n <= b.len() {
                seq![b.subrange(0, n as int)] + items_of(b.subrange(n as int, b.len() as int), (k - 1) as nat)
            } else {
                seq![]
            },
            Err(_) => seq![],
        }
    }
}

/// The names and object encodings of the first `k` fields at the start of a
/// map body.
pub open spec fn entries_of(b: Seq<u8>, k: nat) -> Seq<(Seq<u8>, Seq<u8>)>
    decreases k,
{
    if k == 0 {
        seq![]
    } else {
        match text_len(b) {
            Ok(h) => {
                let rest = b.subrange(h as int, b.len() as int);
                match object_len(rest) {
                    Ok(n) => if h <= b.len() && n <= rest.len() {
                        seq![(b.subrange(2, h as int), rest.subrange(0, n as int))] + entries_of(
                            rest.subrange(n as int, rest.len() as int),
                            (k - 1) as nat,
                        )
                    } else {
                        seq![]
                    },
                    Err(_) => seq![],
                }
            },
            Err(_) => seq![],
        }
    }
}

/// The byte sequences of `s` one after another.
pub open spec fn concat(s: Seq<Seq<u8>>) -> Seq<u8>
    decreases s.len(),
{
    if s.len() == 0 {
        seq![]
    } else {
        s[0] + concat(s.subrange(1, s.len() as int))
    }
}

/// A map field's encoding: the name's length, the name, the value.
pub open spec fn field_encoding(f: (Seq<u8>, Seq<u8>)) -> Seq<u8> {
    be16_bytes(f.0.len()) + f.0 + f.1
}

/// The encodings of the fields of `s` one after another.
pub open spec fn concat_fields(s: Seq<(Seq<u8>, Seq<u8>)>) -> Seq<u8>
    decreases s.len(),
{
    if s.len() == 0 {
        seq![]
    } else {
        field_encoding(s[0]) + concat_fields(s.subrange(1, s.len() as int))
    }
}

/// The encoding of the list whose elements are the encodings `items`.
pub open spec fn list_encoding(items: Seq<Seq<u8>>) -> Seq<u8> {
    seq![3u8] + be16_bytes(items.len()) + concat(items)
}

/// The encoding of the map whose fields are `fields`, in order.
pub open spec fn map_encoding(fields: Seq<(Seq<u8>, Seq<u8>)>) -> Seq<u8> {
    seq![4u8] + be16_bytes(fields.len()) + concat_fields(fields)
}

/// The encoding of the int `v`.
pub open spec fn int_encoding(v: i64) -> Seq<u8> {
    seq![1u8] + crate::bytes::be64_bytes(v as u64)
}

/// The encoding of the text with UTF-8 bytes `t`.
pub open spec fn text_encoding(t: Seq<u8>) -> Seq<u8> {
    seq![2u8] + be16_bytes(t.len()) + t
}

/// The encoding of the link to the key with bytes `k`.
pub open spec fn link_encoding(k: Seq<u8>) -> Seq<u8> {
    seq![5u8] + crate::object::key_encoding(k)
}

/// Each encoding in `s` is one valid object.
pub open spec fn all_valid(s: Seq<Seq<u8>>) -> bool {
    forall|i: int| 0 <= i < s.len() ==> valid_object(#[trigger] s[i])
}

/// Each field in `s` has a UTF-8 name of at most 65535 bytes and a valid value.
pub open spec fn all_valid_fields(s: Seq<(Seq<u8>, Seq<u8>)>) -> bool {
    forall|i: int|
        0 <= i < s.len() ==> {
            &&& utf8(#[trigger] s[i].0)
            &&& s[i].0.len() <= MAX_LEN
            &&& valid_object(s[i].1)
        }
}

pub proof fn lemma_concat_push(s: Seq<Seq<u8>>, x: Seq<u8>)
    ensures
        concat(s.push(x)) == concat(s) + x,
    decreases s.len(),
{
    if s.len() == 0 {
        assert(s.push(x).subrange(1, 1) =~= Seq::<Seq<u8>>::empty());
        assert(concat(s.push(x).subrange(1, 1)) == Seq::<u8>::empty());
        assert(concat(s.push(x)) =~= x);
    } else {
        assert(s.push(x).subrange(1, s.len() + 1 as int) =~= s.subrange(1, s.len() as int).push(x));
        lemma_concat_push(s.subrange(1, s.len() as int), x);
        assert(concat(s.push(x)) =~= concat(s) + x);
    }
}

pub proof fn lemma_concat_fields_push(s: Seq<(Seq<u8>, Seq<u8>)>, x: (Seq<u8>, Seq<u8>))
    ensures
        concat_fields(s.push(x)) == concat_fields(s) + field_encoding(x),
    decreases s.len(),
{
    if s.len() == 0 {
        assert(s.push(x).subrange(1, 1) =~= Seq::<(Seq<u8>, Seq<u8>)>::empty());
        assert(concat_fields(s.push(x).subrange(1, 1)) == Seq::<u8>::empty());
        assert(concat_fields(s.push(x)) =~= field_encoding(x));
    } else {
        assert(s.push(x).subrange(1, s.len() + 1 as int) =~= s.subrange(1, s.len() as int).push(x));
        lemma_concat_fields_push(s.subrange(1, s.len() as int), x);
        assert(concat_fields(s.push(x)) =~= concat_fields(s) + field_encoding(x));
    }
}

/// Valid encodings laid one after another, followed by anything, decode
/// element by element back to themselves.
pub proof fn lemma_items_of_concat(s: Seq<Seq<u8>>, tail: Seq<u8>)
    requires
        all_valid(s),
    ensures
        items_len(concat(s) + tail, s.len()) == Ok::<nat, ObjectError>(concat(s).len()),
        items_of(concat(s) + tail, s.len()) == s,
    decreases s.len(),
{
    if s.len() > 0 {
        let rest = s.subrange(1, s.len() as int);
        let b = concat(s) + tail;
        let n = s[0].len();
        assert(valid_object(s[0]));
        assert(agree(s[0], b, n)) by {
            assert forall|i: int| 0 <= i < n implies #[trigger] s[0][i] == b[i] by {}
        }
        lemma_object_len_prefix(s[0], b);
        assert(b.subrange(n as int, b.len() as int) =~= concat(rest) + tail);
        assert(all_valid(rest)) by {
            assert forall|i: int| 0 <= i < rest.len() implies valid_object(#[trigger] rest[i]) by {
                assert(rest[i] == s[i + 1]);
            }
        }
        lemma_items_of_concat(rest, tail);
        assert(b.subrange(0, n as int) =~= s[0]);
        assert(items_of(b, s.len()) =~= s);
    } else {
        assert(items_of(concat(s) + tail, s.len()) =~= s);
    }
}

proof fn lemma_field_decodes(f: (Seq<u8>, Seq<u8>), after: Seq<u8>)
    requires
        utf8(f.0),
        f.0.len() <= MAX_LEN,
        valid_object(f.1),
    ensures
        ({
            let b = field_encoding(f) + after;
            let h = 2 + f.0.len();
            let rest = b.subrange(h as int, b.len() as int);
            &&& text_len(b) == Ok::<nat, ObjectError>(h)
            &&& b.subrange(2, h as int) == f.0
            &&& object_len(rest) == Ok::<nat, ObjectError>(f.1.len())
            &&& rest.subrange(0, f.1.len() as int) == f.1
            &&& rest.subrange(f.1.len() as int, rest.len() as int) == after
        }),
{
    let name = f.0;
    let v = f.1;
    let b = field_encoding(f) + after;
    let h = 2 + name.len();
    lemma_be16_round_trip(name.len());
    assert(b.subrange(0, 2) =~= be16_bytes(name.len()));
    assert(be16(b) == be16(b.subrange(0, 2)));
    assert(b.subrange(2, h as int) =~= name);
    let rest = b.subrange(h as int, b.len() as int);
    assert(rest =~= v + after);
    assert(agree(v, rest, v.len())) by {
        assert forall|i: int| 0 <= i < v.len() implies #[trigger] v[i] == rest[i] by {}
    }
    lemma_object_len_prefix(v, rest);
    assert(rest.subrange(0, v.len() as int) =~= v);
    assert(rest.subrange(v.len() as int, rest.len() as int) =~= after);
}

proof fn lemma_entries_unfold_at(b: Seq<u8>, k: nat, h: nat, n1: nat)
    requires
        text_len(b) == Ok::<nat, ObjectError>(h),
        h <= b.len(),
        object_len(b.subrange(h as int, b.len() as int)) == Ok::<nat, ObjectError>(n1),
        1 <= n1 <= b.len() - h,
    ensures
        entries_len(b, k + 1) == add_len(
            entries_len(b.subrange((h + n1) as int, b.len() as int), k),
            h + n1,
        ),
        entries_of(b, k + 1) == seq![
            (b.subrange(2, h as int), b.subrange(h as int, (h + n1) as int)),
        ] + entries_of(b.subrange((h + n1) as int, b.len() as int), k),
{
    let rest = b.subrange(h as int, b.len() as int);
    assert(rest.subrange(n1 as int, rest.len() as int) =~= b.subrange(
        (h + n1) as int,
        b.len() as int,
    ));
    assert(rest.subrange(0, n1 as int) =~= b.subrange(h as int, (h + n1) as int));
    assert((k + 1 - 1) as nat == k);
}

proof fn lemma_entries_step(f: (Seq<u8>, Seq<u8>), after: Seq<u8>, k: nat)
    requires
        utf8(f.0),
        f.0.len() <= MAX_LEN,
        valid_object(f.1),
    ensures
        entries_len(field_encoding(f) + after, k + 1) == add_len(
            entries_len(after, k),
            field_encoding(f).len(),
        ),
        entries_of(field_encoding(f) + after, k + 1) == seq![f] + entries_of(after, k),
{
    lemma_field_decodes(f, after);
    lemma_object_len_bounds(f.1);
    let b = field_encoding(f) + after;
    let h = 2 + f.0.len();
    let n1 = f.1.len();
    lemma_entries_unfold_at(b, k, h, n1);
    assert(b.subrange((h + n1) as int, b.len() as int) =~= after);
    assert(b.subrange(h as int, (h + n1) as int) =~= f.1);
}

/// Fields laid one after another, followed by anything, decode field by field
/// back to themselves.
pub proof fn lemma_entries_of_concat(s: Seq<(Seq<u8>, Seq<u8>)>, tail: Seq<u8>)
    requires
        all_valid_fields(s),
    ensures
        entries_len(concat_fields(s) + tail, s.len()) == Ok::<nat, ObjectError>(
            concat_fields(s).len(),
        ),
        entries_of(concat_fields(s) + tail, s.len()) == s,
    decreases s.len(),
{
    if s.len() > 0 {
        let rest = s.subrange(1, s.len() as int);
        let after = concat_fields(rest) + tail;
        assert(concat_fields(s) + tail =~= field_encoding(s[0]) + after);
        assert(utf8(s[0].0) && s[0].0.len() <= MAX_LEN && valid_object(s[0].1));
        assert(all_valid_fields(rest)) by {
            assert forall|i: int| 0 <= i < rest.len() implies {
                &&& utf8(#[trigger] rest[i].0)
                &&& rest[i].0.len() <= MAX_LEN
                &&& valid_object(rest[i].1)
            } by {
                assert(rest[i] == s[i + 1]);
            }
        }
        lemma_entries_of_concat(rest, tail);
        lemma_entries_step(s[0], after, rest.len());
        assert(seq![s[0]] + rest =~= s);
    } else {
        assert(entries_of(concat_fields(s) + tail, s.len()) =~= s);
    }
}

/// A run of `k` decodable elements is the concatenation of its elements,
/// each of them a valid object.
pub proof fn lemma_concat_of_items(b: Seq<u8>, k: nat)
    requires
        items_len(b, k) matches Ok(n),
    ensures
        items_of(b, k).len() == k,
        all_valid(items_of(b, k)),
        concat(items_of(b, k)) == b.subrange(0, items_len(b, k)->Ok_0 as int),
    decreases k,
{
    let n = items_len(b, k)->Ok_0;
    if k == 0 {
        assert(b.subrange(0, 0) =~= Seq::<u8>::empty());
    } else {
        let n1 = object_len(b)->Ok_0;
        lemma_object_len_bounds(b);
        let rest = b.subrange(n1 as int, b.len() as int);
        lemma_concat_of_items(rest, (k - 1) as nat);
        crate::object::lemma_items_len_bounds(rest, (k - 1) as nat);
        let first = b.subrange(0, n1 as int);
        assert(agree(b, first, n1));
        lemma_object_len_prefix(b, first);
        let s = items_of(b, k);
        assert(s.subrange(1, s.len() as int) =~= items_of(rest, (k - 1) as nat));
        assert(b.subrange(0, n as int) =~= first + rest.subrange(0, (n - n1) as int));
        assert(all_valid(s)) by {
            assert forall|i: int| 0 <= i < s.len() implies valid_object(#[trigger] s[i]) by {
                if i > 0 {
                    assert(s[i] == items_of(rest, (k - 1) as nat)[i - 1]);
                }
            }
        }
    }
}

proof fn lemma_entry_head(b: Seq<u8>)
    requires
        text_len(b) matches Ok(h) && object_len(b.subrange(h as int, b.len() as int)) is Ok,
    ensures
        ({
            let h = text_len(b)->Ok_0;
            let after = b.subrange(h as int, b.len() as int);
            let n1 = object_len(after)->Ok_0;
            let name = b.subrange(2, h as int);
            let v = after.subrange(0, n1 as int);
            &&& 2 <= h <= b.len()
            &&& 1 <= n1 <= after.len()
            &&& field_encoding((name, v)) == b.subrange(0, (h + n1) as int)
            &&& utf8(name)
            &&& name.len() <= MAX_LEN
            &&& valid_object(v)
        }),
{
    let h = text_len(b)->Ok_0;
    let after = b.subrange(h as int, b.len() as int);
    let n1 = object_len(after)->Ok_0;
    lemma_object_len_bounds(after);
    let v = after.subrange(0, n1 as int);
    assert(agree(after, v, n1));
    lemma_object_len_prefix(after, v);
    let name = b.subrange(2, h as int);
    crate::bytes::lemma_be16_bytes_of_be16(b.subrange(0, 2));
    assert(be16(b) == be16(b.subrange(0, 2)));
    assert(field_encoding((name, v)) =~= b.subrange(0, (h + n1) as int));
}

proof fn lemma_fields_cons(head: (Seq<u8>, Seq<u8>), tail: Seq<(Seq<u8>, Seq<u8>)>)
    requires
        utf8(head.0),
        head.0.len() <= MAX_LEN,
        valid_object(head.1),
        all_valid_fields(tail),
    ensures
        all_valid_fields(seq![head] + tail),
        concat_fields(seq![head] + tail) == field_encoding(head) + concat_fields(tail),
        (seq![head] + tail).len() == tail.len() + 1,
{
    let s = seq![head] + tail;
    assert(s.subrange(1, s.len() as int) =~= tail);
    assert forall|i: int| 0 <= i < s.len() implies {
        &&& utf8(#[trigger] s[i].0)
        &&& s[i].0.len() <= MAX_LEN
        &&& valid_object(s[i].1)
    } by {
        if i > 0 {
            assert(s[i] == tail[i - 1]);
        }
    }
}

proof fn lemma_entries_unfold(b: Seq<u8>, k: nat)
    requires
        k > 0,
        entries_len(b, k) matches Ok(n),
    ensures
        ({
            let h = text_len(b)->Ok_0;
            let after = b.subrange(h as int, b.len() as int);
            let n1 = object_len(after)->Ok_0;
            let rest = after.subrange(n1 as int, after.len() as int);
            &&& text_len(b) is Ok
            &&& object_len(after) is Ok
            &&& 1 <= n1 <= after.len()
            &&& entries_len(rest, (k - 1) as nat) is Ok
            &&& entries_len(b, k)->Ok_0 == h + n1 + entries_len(rest, (k - 1) as nat)->Ok_0
            &&& entries_of(b, k) == seq![(b.subrange(2, h as int), after.subrange(0, n1 as int))]
                + entries_of(rest, (k - 1) as nat)
        }),
{
    let h = text_len(b)->Ok_0;
    let after = b.subrange(h as int, b.len() as int);
    lemma_object_len_bounds(after);
}

/// A run of `k` decodable fields is the concatenation of its fields, each
/// with a UTF-8 name and a valid value.
pub proof fn lemma_concat_of_entries(b: Seq<u8>, k: nat)
    requires
        entries_len(b, k) matches Ok(n),
    ensures
        entries_of(b, k).len() == k,
        all_valid_fields(entries_of(b, k)),
        concat_fields(entries_of(b, k)) == b.subrange(0, entries_len(b, k)->Ok_0 as int),
    decreases k,
{
    let n = entries_len(b, k)->Ok_0;
    if k == 0 {
        assert(b.subrange(0, 0) =~= Seq::<u8>::empty());
        assert(entries_of(b, k) =~= Seq::<(Seq<u8>, Seq<u8>)>::empty());
    } else {
        lemma_entries_unfold(b, k);
        lemma_entry_head(b);
        let h = text_len(b)->Ok_0;
        let after = b.subrange(h as int, b.len() as int);
        let n1 = object_len(after)->Ok_0;
        let rest = after.subrange(n1 as int, after.len() as int);
        let head = (b.subrange(2, h as int), after.subrange(0, n1 as int));
        let tail = entries_of(rest, (k - 1) as nat);
        lemma_concat_of_entries(rest, (k - 1) as nat);
        crate::object::lemma_entries_len_bounds(rest, (k - 1) as nat);
        let n2 = entries_len(rest, (k - 1) as nat)->Ok_0;
        lemma_fields_cons(head, tail);
        assert(b.subrange(0, n as int) =~= b.subrange(0, (h + n1) as int) + rest.subrange(
            0,
            n2 as int,
        ));
    }
}

/// The element encodings of the list encoding `e`.
pub open spec fn list_items(e: Seq<u8>) -> Seq<Seq<u8>> {
    items_of(e.subrange(3, e.len() as int), be16(e.subrange(1, e.len() as int)))
}

/// The fields of the map encoding `e`.
pub open spec fn map_fields(e: Seq<u8>) -> Seq<(Seq<u8>, Seq<u8>)> {
    entries_of(e.subrange(3, e.len() as int), be16(e.subrange(1, e.len() as int)))
}

proof fn lemma_list_body(e: Seq<u8>)
    requires
        valid_object(e),
        e[0] == 3,
    ensures
        e.len() >= 3,
        items_len(e.subrange(3, e.len() as int), be16(e.subrange(1, e.len() as int)))
            == Ok::<nat, ObjectError>((e.len() - 3) as nat),
{
    let p = e.subrange(1, e.len() as int);
    crate::object::lemma_payload_len_bounds(ObjectKind::List, p);
    assert(p.subrange(2, p.len() as int) =~= e.subrange(3, e.len() as int));
}

proof fn lemma_list_from_body(e: Seq<u8>)
    requires
        e.len() >= 3,
        e[0] == 3,
        items_len(e.subrange(3, e.len() as int), be16(e.subrange(1, e.len() as int)))
            == Ok::<nat, ObjectError>((e.len() - 3) as nat),
    ensures
        list_encoding(list_items(e)) == e,
        all_valid(list_items(e)),
        list_items(e).len() == be16(e.subrange(1, e.len() as int)),
        list_items(e).len() <= MAX_LEN,
{
    let p = e.subrange(1, e.len() as int);
    let k = be16(p);
    let body = e.subrange(3, e.len() as int);
    lemma_concat_of_items(body, k);
    let s = list_items(e);
    assert(body.subrange(0, body.len() as int) =~= body);
    crate::bytes::lemma_be16_bytes_of_be16(p.subrange(0, 2));
    assert(be16(p.subrange(0, 2)) == k);
    assert(be16_bytes(s.len()) =~= e.subrange(1, 3));
    assert(list_encoding(s) =~= e);
}

/// A valid list encoding is the list encoding of its elements.
pub proof fn lemma_list_shape(e: Seq<u8>)
    requires
        valid_object(e),
        e[0] == 3,
    ensures
        list_encoding(list_items(e)) == e,
        all_valid(list_items(e)),
        list_items(e).len() <= MAX_LEN,
        list_items(e).len() == be16(e.subrange(1, e.len() as int)),
{
    lemma_list_body(e);
    lemma_list_from_body(e);
}

proof fn lemma_map_body(e: Seq<u8>)
    requires
        valid_object(e),
        e[0] == 4,
    ensures
        e.len() >= 3,
        entries_len(e.subrange(3, e.len() as int), be16(e.subrange(1, e.len() as int)))
            == Ok::<nat, ObjectError>((e.len() - 3) as nat),
{
    let p = e.subrange(1, e.len() as int);
    crate::object::lemma_payload_len_bounds(ObjectKind::Mapping, p);
    assert(p.subrange(2, p.len() as int) =~= e.subrange(3, e.len() as int));
}

proof fn lemma_map_from_body(e: Seq<u8>)
    requires
        e.len() >= 3,
        e[0] == 4,
        entries_len(e.subrange(3, e.len() as int), be16(e.subrange(1, e.len() as int)))
            == Ok::<nat, ObjectError>((e.len() - 3) as nat),
    ensures
        map_encoding(map_fields(e)) == e,
        all_valid_fields(map_fields(e)),
        map_fields(e).len() == be16(e.subrange(1, e.len() as int)),
        map_fields(e).len() <= MAX_LEN,
{
    let p = e.subrange(1, e.len() as int);
    let k = be16(p);
    let body = e.subrange(3, e.len() as int);
    lemma_concat_of_entries(body, k);
    let f = map_fields(e);
    assert(body.subrange(0, body.len() as int) =~= body);
    crate::bytes::lemma_be16_bytes_of_be16(p.subrange(0, 2));
    assert(be16(p.subrange(0, 2)) == k);
    assert(be16_bytes(f.len()) =~= e.subrange(1, 3));
    assert(map_encoding(f) =~= e);
}

/// A valid map encoding is the map encoding of its fields.
pub proof fn lemma_map_shape(e: Seq<u8>)
    requires
        valid_object(e),
        e[0] == 4,
    ensures
        map_encoding(map_fields(e)) == e,
        all_valid_fields(map_fields(e)),
        map_fields(e).len() <= MAX_LEN,
        map_fields(e).len() == be16(e.subrange(1, e.len() as int)),
{
    lemma_map_body(e);
    lemma_map_from_body(e);
}

/// The null object's view.
#[derive(Debug)]
pub struct Null;

impl Null {
    /// A null payload is empty: nothing is consumed.
    pub fn validate_and_extract(bytes: &[u8]) -> (r: Result<(&[u8], &[u8]), ObjectError>)
        ensures
            splits_as(bytes@, payload_len(ObjectKind::Null, bytes@), r),
    {
        assert(bytes@.subrange(0, bytes@.len() as int) =~= bytes@);
        Ok((slice_subrange(bytes, 0, 0), bytes))
    }

    /// The view of a null object; any other kind is malformed data.
    pub fn from_object(o: &Object) -> (r: Result<Null, ObjectError>)
        ensures
            o@[0] == 0 ==> r is Ok,
            o@[0] != 0 ==> (r matches Err(e) && e == ObjectError::MalformedData),
    {
        match o.kind() {
            ObjectKind::Null => Ok(Null),
            _ => Err(ObjectError::MalformedData),
        }
    }
}

/// An int object's view: a signed 64-bit integer.
#[derive(Debug)]
pub struct Int {
    value: i64,
}

impl View for Int {
    type V = i64;

    closed spec fn view(&self) -> i64 {
        self.value
    }
}

impl Int {
    /// The int `value`.
    pub fn new(value: i64) -> (r: Int)
        ensures
            r@ == value,
    {
        Int { value }
    }

    /// The stored number.
    pub fn inner(&self) -> (r: i64)
        ensures
            r == self@,
    {
        self.value
    }

    /// The int payload: the number as eight bytes, big-endian.
    pub fn serialize(&self) -> (r: Vec<u8>)
        ensures
            r@ == be64_bytes(self@ as u64),
    {
        let mut out: Vec<u8> = Vec::new();
        push_u64_be(&mut out, self.value as u64);
        assert(out@ =~= be64_bytes(self@ as u64));
        out
    }

    /// Reads an int payload from the start of `bytes`.
    pub fn deserialize(bytes: &[u8]) -> (r: Result<(Int, &[u8]), ObjectError>)
        ensures
            bytes@.len() >= 8 ==> (r matches Ok((i, rest)) && i@ == be64(bytes@) as i64 && rest@
                == bytes@.subrange(8, bytes@.len() as int)),
            bytes@.len() < 8 ==> (r matches Err(e) && e == ObjectError::Incomplete),
    {
        if bytes.len() < 8 {
            Err(ObjectError::Incomplete)
        } else {
            let v = read_u64_be(bytes) as i64;
            Ok((Int { value: v }, slice_subrange(bytes, 8, bytes.len())))
        }
    }

    /// The int object holding `value`.
    pub fn new_object(value: i64) -> (r: Object)
        ensures
            r@ == int_encoding(value),
    {
        let mut data: Vec<u8> = Vec::new();
        push_u64_be(&mut data, value as u64);
        proof {
            lemma_be64_round_trip(value as u64);
            assert(data@ =~= be64_bytes(value as u64));
            assert((seq![1u8] + data@).subrange(1, 9) =~= data@);
        }
        Object::from_parts(ObjectKind::Int, data)
    }

    /// The int object with this number.
    pub fn into_object(&self) -> (r: Object)
        ensures
            r@ == int_encoding(self@),
    {
        Int::new_object(self.value)
    }

    /// The number held by an int object; any other kind is malformed data.
    pub fn from_object(o: &Object) -> (r: Result<Int, ObjectError>)
        ensures
            o@[0] == 1 ==> (r matches Ok(i) && i@ == be64(o@.subrange(1, 9)) as i64),
            o@[0] != 1 ==> (r matches Err(e) && e == ObjectError::MalformedData),
    {
        o.check_valid();
        match o.kind() {
            ObjectKind::Int => {
                let d = o.data();
                proof {
                    lemma_object_len_bounds(o@);
                }
                let v = read_u64_be(d) as i64;
                proof {
                    assert(be64(d@) == be64(o@.subrange(1, 9)));
                }
                Ok(Int { value: v })
            },
            _ => Err(ObjectError::MalformedData),
        }
    }

    /// An int payload is eight bytes.
    pub fn validate_and_extract(bytes: &[u8]) -> (r: Result<(&[u8], &[u8]), ObjectError>)
        ensures
            splits_as(bytes@, payload_len(ObjectKind::Int, bytes@), r),
    {
        if bytes.len() < 8 {
            Err(ObjectError::Incomplete)
        } else {
            Ok((slice_subrange(bytes, 0, 8), slice_subrange(bytes, 8, bytes.len())))
        }
    }
}

/// A text object's view: UTF-8 text of at most 65535 bytes.
#[derive(Debug)]
pub struct Text {
    data: Vec<u8>,
}

impl View for Text {
    type V = Seq<u8>;

    closed spec fn view(&self) -> Seq<u8> {
        self.data@
    }
}

impl Text {
    #[verifier::type_invariant]
    spec fn inv(&self) -> bool {
        utf8(self.data@) && self.data@.len() <= MAX_LEN
    }

    /// The text `text`, whose UTF-8 encoding must fit in 65535 bytes.
    pub fn new(text: &str) -> (r: Text)
        requires
            text.spec_bytes().len() <= MAX_LEN,
        ensures
            r@ == text.spec_bytes(),
    {
        let b = text.as_bytes();
        proof {
            vstd::utf8::encode_utf8_valid_utf8(text@);
        }
        proof {
            reveal(utf8);
            assert(utf8(b@));
        }
        Text { data: slice_to_vec(b) }
    }

    /// The text's UTF-8 bytes.
    pub fn as_bytes(&self) -> (r: &[u8])
        ensures
            r@ == self@,
            utf8(r@),
    {
        proof {
            use_type_invariant(self);
        }
        self.data.as_slice()
    }

    /// The text object holding this text.
    pub fn into_object(&self) -> (r: Object)
        ensures
            r@ == text_encoding(self@),
    {
        proof {
            use_type_invariant(self);
        }
        let mut data: Vec<u8> = Vec::new();
        crate::bytes::push_u16_be(&mut data, self.data.len() as u16);
        crate::bytes::push_all(&mut data, self.data.as_slice());
        proof {
            lemma_be16_round_trip(self@.len());
            let e = seq![2u8] + data@;
            assert(e =~= text_encoding(self@));
            let p = e.subrange(1, e.len() as int);
            assert(p =~= data@);
            assert(be16(p) == be16(be16_bytes(self@.len())));
            assert(p.subrange(2, 2 + be16(p) as int) =~= self@);
        }
        Object::from_parts(ObjectKind::Text, data)
    }

    /// The text held by a text object; any other kind is malformed data.
    pub fn from_object(o: &Object) -> (r: Result<Text, ObjectError>)
        ensures
            o@[0] == 2 ==> (r matches Ok(t) && text_encoding(t@) == o@),
            o@[0] != 2 ==> (r matches Err(e) && e == ObjectError::MalformedData),
    {
        o.check_valid();
        match o.kind() {
            ObjectKind::Text => {
                let d = o.data();
                proof {
                    lemma_object_len_bounds(o@);
                }
                let n = read_u16_be(d) as usize;
                let t = slice_to_vec(slice_subrange(d, 2, n + 2));
                proof {
                    crate::bytes::lemma_be16_bytes_of_be16(d@.subrange(0, 2));
                    assert(be16(d@.subrange(0, 2)) == be16(d@));
                    assert(text_encoding(t@) =~= o@);
                }
                Ok(Text { data: t })
            },
            _ => Err(ObjectError::MalformedData),
        }
    }

    /// A text payload is a two-byte length n, then n bytes of UTF-8.
    pub fn validate_and_extract(bytes: &[u8]) -> (r: Result<(&[u8], &[u8]), ObjectError>)
        ensures
            splits_as(bytes@, payload_len(ObjectKind::Text, bytes@), r),
            splits_as(bytes@, text_len(bytes@), r),
    {
        if bytes.len() < 2 {
            return Err(ObjectError::Incomplete);
        }
        let n = read_u16_be(bytes) as usize;
        if bytes.len() - 2 < n {
            return Err(ObjectError::Incomplete);
        }
        proof {
            reveal(utf8);
        }
        if !is_utf8(slice_subrange(bytes, 2, n + 2)) {
            return Err(ObjectError::MalformedData);
        }
        Ok((slice_subrange(bytes, 0, n + 2), slice_subrange(bytes, n + 2, bytes.len())))
    }
}

/// A link object's view: the key of the object it refers to.
#[derive(Debug)]
pub struct Link {
    key: Key,
}

impl View for Link {
    type V = Seq<u8>;

    closed spec fn view(&self) -> Seq<u8> {
        self.key@
    }
}

impl Link {
    /// The link to `key`.
    pub fn new(key: Key) -> (r: Link)
        ensures
            r@ == key@,
    {
        Link { key }
    }

    /// The key this link refers to.
    pub fn key(&self) -> (r: &Key)
        ensures
            r@ == self@,
    {
        &self.key
    }

    /// The link object referring to this link's key.
    pub fn into_object(&self) -> (r: Object)
        ensures
            r@ == link_encoding(self@),
    {
        let data = self.key.to_bytes();
        proof {
            let e = seq![5u8] + data@;
            assert(e.subrange(1, e.len() as int) =~= data@);
            assert(e =~= link_encoding(self@));
        }
        Object::from_parts(ObjectKind::Link, data)
    }

    /// The link held by a link object; any other kind is malformed data.
    pub fn from_object(o: &Object) -> (r: Result<Link, ObjectError>)
        ensures
            o@[0] == 5 ==> (r matches Ok(l) && link_encoding(l@) == o@),
            o@[0] != 5 ==> (r matches Err(e) && e == ObjectError::MalformedData),
    {
        o.check_valid();
        match o.kind() {
            ObjectKind::Link => {
                let d = o.data();
                proof {
                    lemma_object_len_bounds(o@);
                }
                match Key::new(d) {
                    Ok((key, _)) => {
                        proof {
                            assert(d@.subrange(0, d@.len() as int) =~= d@);
                            assert(link_encoding(key@) =~= o@);
                        }
                        Ok(Link { key })
                    },
                    Err(e) => Err(e),
                }
            },
            _ => Err(ObjectError::MalformedData),
        }
    }

    /// A link payload is a key's encoding.
    pub fn validate_and_extract(bytes: &[u8]) -> (r: Result<(&[u8], &[u8]), ObjectError>)
        ensures
            splits_as(bytes@, payload_len(ObjectKind::Link, bytes@), r),
    {
        Key::validate_and_extract(bytes)
    }
}

/// A list object's view: its payload, a two-byte count k followed by k
/// object encodings. Its view is the sequence of those encodings.
#[derive(Debug)]
pub struct List {
    data: Vec<u8>,
}

impl View for List {
    type V = Seq<Seq<u8>>;

    closed spec fn view(&self) -> Seq<Seq<u8>> {
        items_of(self.data@.subrange(2, self.data@.len() as int), be16(self.data@))
    }
}

impl List {
    #[verifier::type_invariant]
    spec fn inv(&self) -> bool {
        payload_len(ObjectKind::List, self.data@) == Ok::<nat, ObjectError>(self.data@.len())
    }

    proof fn lemma_shape(&self)
        requires
            self.inv(),
        ensures
            self.data@.len() >= 2,
            self@.len() == be16(self.data@),
            all_valid(self@),
            concat(self@) == self.data@.subrange(2, self.data@.len() as int),
            list_encoding(self@) == seq![3u8] + self.data@,
    {
        let e = seq![3u8] + self.data@;
        assert(e.subrange(1, e.len() as int) =~= self.data@);
        assert(valid_object(e));
        lemma_list_shape(e);
        assert(e.subrange(3, e.len() as int) =~= self.data@.subrange(2, self.data@.len() as int));
    }

    /// The number of elements.
    pub fn len(&self) -> (r: u16)
        ensures
            r as nat == self@.len(),
    {
        proof {
            use_type_invariant(self);
            self.lemma_shape();
        }
        read_u16_be(self.data.as_slice())
    }

    /// The list held by a list object; any other kind is malformed data.
    pub fn from_object(o: &Object) -> (r: Result<List, ObjectError>)
        ensures
            o@[0] == 3 ==> (r matches Ok(l) && list_encoding(l@) == o@ && all_valid(l@)),
            o@[0] != 3 ==> (r matches Err(e) && e == ObjectError::MalformedData),
    {
        o.check_valid();
        match o.kind() {
            ObjectKind::List => {
                let l = List { data: slice_to_vec(o.data()) };
                proof {
                    lemma_object_len_bounds(o@);
                    l.lemma_shape();
                    assert(seq![3u8] + l.data@ =~= o@);
                }
                Ok(l)
            },
            _ => Err(ObjectError::MalformedData),
        }
    }

    /// The list object with these elements.
    pub fn into_object(&self) -> (r: Object)
        ensures
            r@ == list_encoding(self@),
    {
        proof {
            use_type_invariant(self);
            self.lemma_shape();
            assert((seq![3u8] + self.data@).subrange(1, self.data@.len() + 1 as int) =~= self.data@);
        }
        Object::from_parts(ObjectKind::List, self.data.clone())
    }

    /// An iterator over the elements, in order.
    pub fn iter(&self) -> (r: ListIterator)
        ensures
            r.wf(),
            r@ == self@,
    {
        proof {
            use_type_invariant(self);
            self.lemma_shape();
        }
        let count = read_u16_be(self.data.as_slice());
        ListIterator { data: self.data.clone(), offset: 2, left: count }
    }

    /// Checks the list payload at the start of `bytes`, each element in turn,
    /// and splits it from what follows.
    pub fn validate_and_extract(bytes: &[u8]) -> (r: Result<(&[u8], &[u8]), ObjectError>)
        ensures
            splits_as(bytes@, payload_len(ObjectKind::List, bytes@), r),
        decreases bytes@.len(), 2nat,
    {
        if bytes.len() < 2 {
            return Err(ObjectError::Incomplete);
        }
        let count = read_u16_be(bytes);
        let body = slice_subrange(bytes, 2, bytes.len());
        let mut rem = body;
        let mut i: u16 = 0;
        while i < count
            invariant
                i <= count,
                count as nat == be16(bytes@),
                bytes@.len() >= 2,
                body@ == bytes@.subrange(2, bytes@.len() as int),
                rem@.len() <= body@.len(),
                rem@ == body@.subrange(body@.len() - rem@.len(), body@.len() as int),
                items_len(body@, count as nat) == add_len(
                    items_len(rem@, (count - i) as nat),
                    (body@.len() - rem@.len()) as nat,
                ),
            decreases count - i,
        {
            match Object::validate_and_extract(rem) {
                Err(e) => {
                    return Err(e);
                },
                Ok((first, rest)) => {
                    proof {
                        lemma_object_len_bounds(rem@);
                        assert(rest@ =~= body@.subrange(
                            body@.len() - rest@.len(),
                            body@.len() as int,
                        ));
                    }
                    rem = rest;
                },
            }
            i = i + 1;
        }
        let used = bytes.len() - rem.len();
        proof {
            assert(rem@ =~= bytes@.subrange(used as int, bytes@.len() as int));
        }
        Ok((slice_subrange(bytes, 0, used), rem))
    }
}

/// Walks the elements of a list, decoding one at each step.
pub struct ListIterator {
    data: Vec<u8>,
    offset: usize,
    left: u16,
}

impl View for ListIterator {
    type V = Seq<Seq<u8>>;

    /// The encodings of the elements not yet returned.
    closed spec fn view(&self) -> Seq<Seq<u8>> {
        items_of(self.data@.subrange(self.offset as int, self.data@.len() as int), self.left as nat)
    }
}

impl ListIterator {
    /// The offset is within the payload and the elements after it decode.
    pub closed spec fn wf(&self) -> bool {
        &&& self.offset <= self.data@.len()
        &&& items_len(
            self.data@.subrange(self.offset as int, self.data@.len() as int),
            self.left as nat,
        ) is Ok
    }

    /// The next element, or `None` when all have been returned.
    pub fn next(&mut self) -> (r: Option<Object>)
        requires
            old(self).wf(),
        ensures
            final(self).wf(),
            old(self)@.len() == 0 ==> r is None && final(self)@ == old(self)@,
            old(self)@.len() > 0 ==> (r matches Some(o) && o@ == old(self)@[0] && final(self)@
                == old(self)@.subrange(1, old(self)@.len() as int)),
    {
        proof {
            lemma_concat_of_items(
                self.data@.subrange(self.offset as int, self.data@.len() as int),
                self.left as nat,
            );
        }
        if self.left == 0 {
            return None;
        }
        let rem = slice_subrange(self.data.as_slice(), self.offset, self.data.len());
        match Object::deserialize(rem) {
            Ok((o, rest)) => {
                proof {
                    lemma_object_len_bounds(rem@);
                    let n = object_len(rem@)->Ok_0;
                    assert(rem@.subrange(n as int, rem@.len() as int) =~= self.data@.subrange(
                        self.offset + n,
                        self.data@.len() as int,
                    ));
                }
                self.offset = self.data.len() - rest.len();
                self.left = self.left - 1;
                Some(o)
            },
            Err(_) => None,
        }
    }
}

/// A map object's view: its payload, a two-byte field count k followed by k
/// fields, each a two-byte name length n, n bytes of UTF-8 name and an object
/// encoding. Field order is kept as encoded. Its view is the sequence of
/// fields, each a name and a value encoding.
#[derive(Debug)]
pub struct Mapping {
    data: Vec<u8>,
}

impl View for Mapping {
    type V = Seq<(Seq<u8>, Seq<u8>)>;

    closed spec fn view(&self) -> Seq<(Seq<u8>, Seq<u8>)> {
        entries_of(self.data@.subrange(2, self.data@.len() as int), be16(self.data@))
    }
}

impl Mapping {
    #[verifier::type_invariant]
    spec fn inv(&self) -> bool {
        payload_len(ObjectKind::Mapping, self.data@) == Ok::<nat, ObjectError>(self.data@.len())
    }

    proof fn lemma_shape(&self)
        requires
            self.inv(),
        ensures
            self.data@.len() >= 2,
            self@.len() == be16(self.data@),
            all_valid_fields(self@),
            map_encoding(self@) == seq![4u8] + self.data@,
    {
        let e = seq![4u8] + self.data@;
        assert(e.subrange(1, e.len() as int) =~= self.data@);
        assert(valid_object(e));
        lemma_map_shape(e);
        assert(e.subrange(3, e.len() as int) =~= self.data@.subrange(2, self.data@.len() as int));
    }

    /// The number of fields.
    pub fn num_fields(&self) -> (r: u16)
        ensures
            r as nat == self@.len(),
    {
        proof {
            use_type_invariant(self);
            self.lemma_shape();
        }
        read_u16_be(self.data.as_slice())
    }

    /// The map held by a map object; any other kind is malformed data.
    pub fn from_object(o: &Object) -> (r: Result<Mapping, ObjectError>)
        ensures
            o@[0] == 4 ==> (r matches Ok(m) && map_encoding(m@) == o@ && all_valid_fields(m@)),
            o@[0] != 4 ==> (r matches Err(e) && e == ObjectError::MalformedData),
    {
        o.check_valid();
        match o.kind() {
            ObjectKind::Mapping => {
                let m = Mapping { data: slice_to_vec(o.data()) };
                proof {
                    lemma_object_len_bounds(o@);
                    m.lemma_shape();
                    assert(seq![4u8] + m.data@ =~= o@);
                }
                Ok(m)
            },
            _ => Err(ObjectError::MalformedData),
        }
    }

    /// The map object with these fields.
    pub fn into_object(&self) -> (r: Object)
        ensures
            r@ == map_encoding(self@),
    {
        proof {
            use_type_invariant(self);
            self.lemma_shape();
            assert((seq![4u8] + self.data@).subrange(1, self.data@.len() + 1 as int) =~= self.data@);
        }
        Object::from_parts(ObjectKind::Mapping, self.data.clone())
    }

    /// An iterator over the fields, in order.
    pub fn iter(&self) -> (r: MapIterator)
        ensures
            r.wf(),
            r@ == self@,
    {
        proof {
            use_type_invariant(self);
            self.lemma_shape();
        }
        let count = read_u16_be(self.data.as_slice());
        MapIterator { data: self.data.clone(), offset: 2, left: count }
    }

    /// Checks the map payload at the start of `bytes`, each field in turn,
    /// and splits it from what follows.
    pub fn validate_and_extract(bytes: &[u8]) -> (r: Result<(&[u8], &[u8]), ObjectError>)
        ensures
            splits_as(bytes@, payload_len(ObjectKind::Mapping, bytes@), r),
        decreases bytes@.len(), 2nat,
    {
        if bytes.len() < 2 {
            return Err(ObjectError::Incomplete);
        }
        let count = read_u16_be(bytes);
        let body = slice_subrange(bytes, 2, bytes.len());
        let mut rem = body;
        let mut i: u16 = 0;
        while i < count
            invariant
                i <= count,
                count as nat == be16(bytes@),
                bytes@.len() >= 2,
                body@ == bytes@.subrange(2, bytes@.len() as int),
                rem@.len() <= body@.len(),
                rem@ == body@.subrange(body@.len() - rem@.len(), body@.len() as int),
                entries_len(body@, count as nat) == add_len(
                    entries_len(rem@, (count - i) as nat),
                    (body@.len() - rem@.len()) as nat,
                ),
            decreases count - i,
        {
            let after_name = match Text::validate_and_extract(rem) {
                Err(e) => {
                    return Err(e);
                },
                Ok((_, rest)) => rest,
            };
            match Object::validate_and_extract(after_name) {
                Err(e) => {
                    return Err(e);
                },
                Ok((value, rest)) => {
                    proof {
                        lemma_object_len_bounds(after_name@);
                        let h = text_len(rem@)->Ok_0;
                        let n = object_len(after_name@)->Ok_0;
                        assert(after_name@.subrange(n as int, after_name@.len() as int) =~= rest@);
                        assert(rest@ =~= body@.subrange(
                            body@.len() - rest@.len(),
                            body@.len() as int,
                        ));
                    }
                    rem = rest;
                },
            }
            i = i + 1;
        }
        let used = bytes.len() - rem.len();
        proof {
            assert(rem@ =~= bytes@.subrange(used as int, bytes@.len() as int));
        }
        Ok((slice_subrange(bytes, 0, used), rem))
    }
}

/// Walks the fields of a map, decoding one at each step.
pub struct MapIterator {
    data: Vec<u8>,
    offset: usize,
    left: u16,
}

impl View for MapIterator {
    type V = Seq<(Seq<u8>, Seq<u8>)>;

    /// The fields not yet returned.
    closed spec fn view(&self) -> Seq<(Seq<u8>, Seq<u8>)> {
        entries_of(
            self.data@.subrange(self.offset as int, self.data@.len() as int),
            self.left as nat,
        )
    }
}

impl MapIterator {
    /// The offset is within the payload and the elements after it decode.
    pub closed spec fn wf(&self) -> bool {
        &&& self.offset <= self.data@.len()
        &&& entries_len(
            self.data@.subrange(self.offset as int, self.data@.len() as int),
            self.left as nat,
        ) is Ok
    }

    /// The next field's name (without its length) and value, or `None` when
    /// all have been returned.
    pub fn next(&mut self) -> (r: Option<(Vec<u8>, Object)>)
        requires
            old(self).wf(),
        ensures
            final(self).wf(),
            old(self)@.len() == 0 ==> r is None && final(self)@ == old(self)@,
            old(self)@.len() > 0 ==> (r matches Some((name, o)) && name@ == old(self)@[0].0 && o@
                == old(self)@[0].1 && final(self)@ == old(self)@.subrange(
                1,
                old(self)@.len() as int,
            )),
    {
        proof {
            lemma_concat_of_entries(
                self.data@.subrange(self.offset as int, self.data@.len() as int),
                self.left as nat,
            );
        }
        if self.left == 0 {
            return None;
        }
        let rem = slice_subrange(self.data.as_slice(), self.offset, self.data.len());
        let (name_enc, after) = match Text::validate_and_extract(rem) {
            Ok(x) => x,
            Err(_) => return None,
        };
        let name = slice_to_vec(slice_subrange(name_enc, 2, name_enc.len()));
        match Object::deserialize(after) {
            Ok((o, rest)) => {
                proof {
                    lemma_object_len_bounds(after@);
                    let h = text_len(rem@)->Ok_0;
                    let n = object_len(after@)->Ok_0;
                    assert(after@.subrange(n as int, after@.len() as int) =~= self.data@.subrange(
                        self.offset + h + n,
                        self.data@.len() as int,
                    ));
                }
                self.offset = self.data.len() - rest.len();
                self.left = self.left - 1;
                Some((name, o))
            },
            Err(_) => None,
        }
    }
}

/// Assembles a list payload element by element; `build` writes the count in
/// front.
pub struct ListBuilder {
    len: u16,
    data: Vec<u8>,
    items: Ghost<Seq<Seq<u8>>>,
}

impl ListBuilder {
    /// The payload holds two placeholder bytes, then the encodings added.
    pub closed spec fn wf(&self) -> bool {
        &&& self.data@ == seq![0u8, 0u8] + concat(self.items@)
        &&& all_valid(self.items@)
        &&& self.items@.len() <= MAX_LEN
    }

    /// The count that `build` will write.
    pub closed spec fn count(&self) -> nat {
        self.len as nat
    }

    /// The encodings of the elements added so far.
    pub closed spec fn items(&self) -> Seq<Seq<u8>> {
        self.items@
    }

    /// A builder with no elements that will write the count `len`.
    pub fn new(len: u16) -> (r: ListBuilder)
        ensures
            r.wf(),
            r.count() == len,
            r.items() == Seq::<Seq<u8>>::empty(),
    {
        let r = ListBuilder { len, data: vec![0u8, 0u8], items: Ghost(Seq::empty()) };
        assert(r.data@ =~= seq![0u8, 0u8] + concat(Seq::<Seq<u8>>::empty()));
        r
    }

    /// Appends an element without changing the count to be written.
    pub fn add_item_no_increment(&mut self, object: Object)
        requires
            old(self).wf(),
            old(self).items().len() < MAX_LEN,
        ensures
            final(self).wf(),
            final(self).items() == old(self).items().push(object@),
            final(self).count() == old(self).count(),
    {
        object.check_valid();
        let enc = object.serialize();
        crate::bytes::push_all(&mut self.data, enc.as_slice());
        proof {
            lemma_concat_push(self.items@, object@);
            let old_items = self.items@;
            self.items = Ghost(old_items.push(object@));
            assert(all_valid(self.items@)) by {
                assert forall|i: int| 0 <= i < self.items@.len() implies valid_object(
                    #[trigger] self.items@[i],
                ) by {
                    if i < old_items.len() {
                        assert(self.items@[i] == old_items[i]);
                    }
                }
            }
            assert(self.data@ =~= seq![0u8, 0u8] + concat(self.items@));
        }
    }

    /// Appends an element and counts it.
    pub fn add_item(&mut self, object: Object)
        requires
            old(self).wf(),
            old(self).items().len() < MAX_LEN,
            old(self).count() < MAX_LEN,
        ensures
            final(self).wf(),
            final(self).items() == old(self).items().push(object@),
            final(self).count() == old(self).count() + 1,
    {
        self.add_item_no_increment(object);
        self.len = self.len + 1;
    }

    /// The list with the elements added, whose count must match.
    pub fn build(self) -> (r: List)
        requires
            self.wf(),
            self.count() == self.items().len(),
        ensures
            r@ == self.items(),
    {
        let mut data = self.data;
        let len = self.len;
        data[0] = (len / 256) as u8;
        data[1] = (len % 256) as u8;
        proof {
            let items = self.items@;
            lemma_be16_round_trip(len as nat);
            assert(data@ =~= be16_bytes(len as nat) + concat(items));
            lemma_items_of_concat(items, Seq::<u8>::empty());
            assert(concat(items) + Seq::<u8>::empty() =~= concat(items));
            assert(data@.subrange(2, data@.len() as int) =~= concat(items));
            assert(be16(data@) == be16(be16_bytes(len as nat)));
        }
        List { data }
    }
}

/// Assembles a map payload field by field; `build` writes the count in front.
pub struct MapBuilder {
    field_count: u16,
    data: Vec<u8>,
    fields: Ghost<Seq<(Seq<u8>, Seq<u8>)>>,
}

impl MapBuilder {
    /// The payload holds two placeholder bytes, then the encodings added.
    pub closed spec fn wf(&self) -> bool {
        &&& self.data@ == seq![0u8, 0u8] + concat_fields(self.fields@)
        &&& all_valid_fields(self.fields@)
        &&& self.fields@.len() <= MAX_LEN
    }

    /// The count that `build` will write.
    pub closed spec fn count(&self) -> nat {
        self.field_count as nat
    }

    /// The fields added so far.
    pub closed spec fn fields(&self) -> Seq<(Seq<u8>, Seq<u8>)> {
        self.fields@
    }

    /// A builder with no fields that will write the count `field_count`.
    pub fn new(field_count: u16) -> (r: MapBuilder)
        ensures
            r.wf(),
            r.count() == field_count,
            r.fields() == Seq::<(Seq<u8>, Seq<u8>)>::empty(),
    {
        let r = MapBuilder { field_count, data: vec![0u8, 0u8], fields: Ghost(Seq::empty()) };
        assert(r.data@ =~= seq![0u8, 0u8] + concat_fields(Seq::<(Seq<u8>, Seq<u8>)>::empty()));
        r
    }

    /// Appends a field named `field_name` (UTF-8, without its length) without
    /// changing the count to be written.
    pub fn add_field_no_increment(&mut self, field_name: &[u8], object: Object)
        requires
            old(self).wf(),
            old(self).fields().len() < MAX_LEN,
            utf8(field_name@),
            field_name@.len() <= MAX_LEN,
        ensures
            final(self).wf(),
            final(self).fields() == old(self).fields().push((field_name@, object@)),
            final(self).count() == old(self).count(),
    {
        object.check_valid();
        crate::bytes::push_u16_be(&mut self.data, field_name.len() as u16);
        crate::bytes::push_all(&mut self.data, field_name);
        let enc = object.serialize();
        crate::bytes::push_all(&mut self.data, enc.as_slice());
        proof {
            let f = (field_name@, object@);
            lemma_concat_fields_push(self.fields@, f);
            let old_fields = self.fields@;
            self.fields = Ghost(old_fields.push(f));
            assert(all_valid_fields(self.fields@)) by {
                assert forall|i: int| 0 <= i < self.fields@.len() implies {
                    &&& utf8(#[trigger] self.fields@[i].0)
                    &&& self.fields@[i].0.len() <= MAX_LEN
                    &&& valid_object(self.fields@[i].1)
                } by {
                    if i < old_fields.len() {
                        assert(self.fields@[i] == old_fields[i]);
                    }
                }
            }
            assert(self.data@ =~= seq![0u8, 0u8] + concat_fields(self.fields@));
        }
    }

    /// Appends a field and counts it.
    pub fn add_field(&mut self, field_name: &[u8], object: Object)
        requires
            old(self).wf(),
            old(self).fields().len() < MAX_LEN,
            old(self).count() < MAX_LEN,
            utf8(field_name@),
            field_name@.len() <= MAX_LEN,
        ensures
            final(self).wf(),
            final(self).fields() == old(self).fields().push((field_name@, object@)),
            final(self).count() == old(self).count() + 1,
    {
        self.add_field_no_increment(field_name, object);
        self.field_count = self.field_count + 1;
    }

    /// The map with the fields added, whose count must match.
    pub fn build(self) -> (r: Mapping)
        requires
            self.wf(),
            self.count() == self.fields().len(),
        ensures
            r@ == self.fields(),
    {
        let mut data = self.data;
        let len = self.field_count;
        data[0] = (len / 256) as u8;
        data[1] = (len % 256) as u8;
        proof {
            let fields = self.fields@;
            lemma_be16_round_trip(len as nat);
            assert(data@ =~= be16_bytes(len as nat) + concat_fields(fields));
            lemma_entries_of_concat(fields, Seq::<u8>::empty());
            assert(concat_fields(fields) + Seq::<u8>::empty() =~= concat_fields(fields));
            assert(data@.subrange(2, data@.len() as int) =~= concat_fields(fields));
            assert(be16(data@) == be16(be16_bytes(len as nat)));
        }
        Mapping { data }
    }
}

} // verus!
