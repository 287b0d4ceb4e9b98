//! Keys and objects, and the grammar of their byte encodings.
//!
//! An object is encoded as a one-byte kind tag followed by a payload whose
//! layout depends on the kind. The spec functions `object_len`,
//! `payload_len`, `items_len`, `entries_len` and `key_len` give, for a byte
//! sequence, either the number of bytes that one well-formed encoding at its
//! start occupies or the error that decoding reports.

use vstd::prelude::*;
use vstd::slice::{slice_subrange, slice_to_vec};
use vstd::utf8::valid_utf8;
use crate::bytes::{be16, be16_bytes, is_utf8, lemma_be16_round_trip, push_u16_be, read_u16_be};

verus! {

/// The largest length of a key, of a text and of a field name, and the largest
/// element count of a list or a map.
pub const MAX_LEN: usize = 65535;

/// Why a byte sequence is not a valid key or object encoding.
#[derive(Debug, Clone, Copy, PartialEq, Eq, Structural)]
pub enum ObjectError {
    /// The bytes end before the encoding does.
    Incomplete,
    /// The bytes hold something that no encoding can hold: an unknown kind
    /// tag, an empty key, or a text or field name that is not UTF-8.
    MalformedData,
}

/// The kinds of objects, with their one-byte tags.
#[derive(Debug, Clone, Copy, PartialEq, Eq, Structural)]
pub enum ObjectKind {
    /// No value (tag 0).
    Null,
    /// A signed 64-bit integer (tag 1).
    Int,
    /// UTF-8 text (tag 2).
    Text,
    /// A sequence of objects (tag 3).
    List,
    /// A sequence of named fields (tag 4).
    Mapping,
    /// A reference to the object stored under a key (tag 5).
    Link,
}

/// The tag of kind `k`.
pub open spec fn kind_tag(k: ObjectKind) -> u8 {
    match k {
        ObjectKind::Null => 0,
        ObjectKind::Int => 1,
        ObjectKind::Text => 2,
        ObjectKind::List => 3,
        ObjectKind::Mapping => 4,
        ObjectKind::Link => 5,
    }
}

/// The kind whose tag is `t`, if any.
pub open spec fn kind_of_tag(t: u8) -> Option<ObjectKind> {
    if t == 0 {
        Some(ObjectKind::Null)
    } else if t == 1 {
        Some(ObjectKind::Int)
    } else if t == 2 {
        Some(ObjectKind::Text)
    } else if t == 3 {
        Some(ObjectKind::List)
    } else if t == 4 {
        Some(ObjectKind::Mapping)
    } else if t == 5 {
        Some(ObjectKind::Link)
    } else {
        None
    }
}

impl ObjectKind {
    /// The one-byte tag of this kind.
    pub fn tag(self) -> (r: u8)
        ensures
            r == kind_tag(self),
            kind_of_tag(r) == Some(self),
    {
        match self {
            ObjectKind::Null => 0,
            ObjectKind::Int => 1,
            ObjectKind::Text => 2,
            ObjectKind::List => 3,
            ObjectKind::Mapping => 4,
            ObjectKind::Link => 5,
        }
    }

    /// The kind with tag `t`; an unknown tag is malformed data.
    pub fn try_from_tag(t: u8) -> (r: Result<ObjectKind, ObjectError>)
        ensures
            match kind_of_tag(t) {
                Some(k) => r == Ok::<ObjectKind, ObjectError>(k) && kind_tag(k) == t,
                None => r == Err::<ObjectKind, ObjectError>(ObjectError::MalformedData),
            },
    {
        if t == 0 {
            Ok(ObjectKind::Null)
        } else if t == 1 {
            Ok(ObjectKind::Int)
        } else if t == 2 {
            Ok(ObjectKind::Text)
        } else if t == 3 {
            Ok(ObjectKind::List)
        } else if t == 4 {
            Ok(ObjectKind::Mapping)
        } else if t == 5 {
            Ok(ObjectKind::Link)
        } else {
            Err(ObjectError::MalformedData)
        }
    }
}

/// `b` is well-formed UTF-8. Kept opaque: proofs about the encodings only
/// carry it along.
#[verifier::opaque]
pub open spec fn utf8(b: Seq<u8>) -> bool {
    valid_utf8(b)
}

/// `r` with `c` added to its length, errors unchanged.
pub open spec fn add_len(r: Result<nat, ObjectError>, c: nat) -> Result<nat, ObjectError> {
    match r {
        Ok(n) => Ok(n + c),
        Err(e) => Err(e),
    }
}

/// A key's encoding: a two-byte length n, non-zero, then n bytes.
pub open spec fn key_len(b: Seq<u8>) -> Result<nat, ObjectError> {
    if b.len() < 2 {
        Err(ObjectError::Incomplete)
    } else if be16(b) == 0 {
        Err(ObjectError::MalformedData)
    } else if b.len() < 2 + be16(b) {
        Err(ObjectError::Incomplete)
    } else {
        Ok(2 + be16(b))
    }
}

/// A text payload: a two-byte length n, then n bytes of UTF-8.
pub open spec fn text_len(b: Seq<u8>) -> Result<nat, ObjectError> {
    if b.len() < 2 {
        Err(ObjectError::Incomplete)
    } else if b.len() < 2 + be16(b) {
        Err(ObjectError::Incomplete)
    } else if !utf8(b.subrange(2, 2 + be16(b) as int)) {
        Err(ObjectError::MalformedData)
    } else {
        Ok(2 + be16(b))
    }
}

/// An int payload: eight bytes.
pub open spec fn int_len(b: Seq<u8>) -> Result<nat, ObjectError> {
    if b.len() < 8 {
        Err(ObjectError::Incomplete)
    } else {
        Ok(8)
    }
}

/// The length of the object encoding at the start of `b`: a tag, then the
/// payload of the tag's kind.
pub open spec fn object_len(b: Seq<u8>) -> Result<nat, ObjectError>
    decreases b.len(), 0nat, 0nat,
{
    if b.len() == 0 {
        Err(ObjectError::Incomplete)
    } else {
        match kind_of_tag(b[0]) {
            None => Err(ObjectError::MalformedData),
            Some(k) => add_len(payload_len(k, b.subrange(1, b.len() as int)), 1),
        }
    }
}

/// The length of the payload of kind `k` at the start of `b`.
pub open spec fn payload_len(k: ObjectKind, b: Seq<u8>) -> Result<nat, ObjectError>
    decreases b.len(), 0nat, 0nat,
{
    match k {
        ObjectKind::Null => Ok(0),
        ObjectKind::Int => int_len(b),
        ObjectKind::Text => text_len(b),
        ObjectKind::Link => key_len(b),
        ObjectKind::List => {
            if b.len() < 2 {
                Err(ObjectError::Incomplete)
            } else {
                add_len(items_len(b.subrange(2, b.len() as int), be16(b)), 2)
            }
        },
        ObjectKind::Mapping => {
            if b.len() < 2 {
                Err(ObjectError::Incomplete)
            } else {
                add_len(entries_len(b.subrange(2, b.len() as int), be16(b)), 2)
            }
        },
    }
}

/// The length of `k` consecutive object encodings at the start of `b`.
pub open spec fn items_len(b: Seq<u8>, k: nat) -> Result<nat, ObjectError>
    decreases b.len(), 1nat, k,
{
    if k == 0 {
        Ok(0)
    } else {
        match object_len(b) {
            Err(e) => Err(e),
            Ok(n) => if 1 <= n <= b.len() {
                add_len(items_len(b.subrange(n as int, b.len() as int), (k - 1) as nat), n)
            } else {
                Err(ObjectError::MalformedData)
            },
        }
    }
}

/// The length of `k` consecutive map fields at the start of `b`; a field is a
/// two-byte name length n, n bytes of UTF-8 name, and an object encoding.
pub open spec fn entries_len(b: Seq<u8>, k: nat) -> Result<nat, ObjectError>
    decreases b.len(), 1nat, k,
{
    if k == 0 {
        Ok(0)
    } else {
        match text_len(b) {
            Err(e) => Err(e),
            Ok(h) => {
                let rest = b.subrange(h as int, b.len() as int);
                match object_len(rest) {
                    Err(e) => Err(e),
                    Ok(n) => if 1 <= n <= rest.len() {
                        add_len(
                            entries_len(rest.subrange(n as int, rest.len() as int), (k - 1) as nat),
                            h + n,
                        )
                    } else {
                        Err(ObjectError::MalformedData)
                    },
                }
            },
        }
    }
}

/// `e` is exactly one object encoding.
pub open spec fn valid_object(e: Seq<u8>) -> bool {
    object_len(e) == Ok::<nat, ObjectError>(e.len())
}

/// `r` splits `b` as `expected` says: the first `n` bytes and the rest on
/// `Ok(n)`, the same error on `Err`.
pub open spec fn splits_as(
    b: Seq<u8>,
    expected: Result<nat, ObjectError>,
    r: Result<(&[u8], &[u8]), ObjectError>,
) -> bool {
    match expected {
        Ok(n) => match r {
            Ok((c, rest)) => n <= b.len() && c@ == b.subrange(0, n as int) && rest@ == b.subrange(
                n as int,
                b.len() as int,
            ),
            Err(_) => false,
        },
        Err(e) => r == Err::<(&[u8], &[u8]), ObjectError>(e),
    }
}

/// The spec functions of the grammar consume no more bytes than they are given.
pub proof fn lemma_object_len_bounds(b: Seq<u8>)
    ensures
        object_len(b) matches Ok(n) ==> 1 <= n <= b.len(),
    decreases b.len(), 0nat, 0nat,
{
    if b.len() > 0 {
        if let Some(k) = kind_of_tag(b[0]) {
            lemma_payload_len_bounds(k, b.subrange(1, b.len() as int));
        }
    }
}

pub proof fn lemma_payload_len_bounds(k: ObjectKind, b: Seq<u8>)
    ensures
        payload_len(k, b) matches Ok(n) ==> n <= b.len(),
    decreases b.len(), 0nat, 0nat,
{
    if b.len() >= 2 {
        match k {
            ObjectKind::List => lemma_items_len_bounds(b.subrange(2, b.len() as int), be16(b)),
            ObjectKind::Mapping => lemma_entries_len_bounds(b.subrange(2, b.len() as int), be16(b)),
            _ => {},
        }
    }
}

pub proof fn lemma_items_len_bounds(b: Seq<u8>, k: nat)
    ensures
        items_len(b, k) matches Ok(n) ==> n <= b.len(),
    decreases b.len(), 1nat, k,
{
    if k > 0 {
        lemma_object_len_bounds(b);
        if let Ok(n) = object_len(b) {
            lemma_items_len_bounds(b.subrange(n as int, b.len() as int), (k - 1) as nat);
        }
    }
}

pub proof fn lemma_entries_len_bounds(b: Seq<u8>, k: nat)
    ensures
        entries_len(b, k) matches Ok(n) ==> n <= b.len(),
    decreases b.len(), 1nat, k,
{
    if k > 0 {
        if let Ok(h) = text_len(b) {
            let rest = b.subrange(h as int, b.len() as int);
            lemma_object_len_bounds(rest);
            if let Ok(n) = object_len(rest) {
                lemma_entries_len_bounds(rest.subrange(n as int, rest.len() as int), (k - 1) as nat);
            }
        }
    }
}


/// `b` and `c` hold the same first `n` bytes.
pub open spec fn agree(b: Seq<u8>, c: Seq<u8>, n: nat) -> bool {
    &&& n <= b.len()
    &&& n <= c.len()
    &&& forall|i: int| 0 <= i < n ==> #[trigger] b[i] == c[i]
}

proof fn lemma_agree_suffix(b: Seq<u8>, c: Seq<u8>, n: nat, s: nat)
    requires
        agree(b, c, n),
        s <= n,
    ensures
        agree(b.subrange(s as int, b.len() as int), c.subrange(s as int, c.len() as int), (n - s) as nat),
{
    let bs = b.subrange(s as int, b.len() as int);
    let cs = c.subrange(s as int, c.len() as int);
    assert forall|i: int| 0 <= i < n - s implies #[trigger] bs[i] == cs[i] by {
        assert(b[i + s] == c[i + s]);
    }
}

proof fn lemma_text_len_prefix(b: Seq<u8>, c: Seq<u8>)
    requires
        text_len(b) matches Ok(n) && agree(b, c, n),
    ensures
        text_len(c) == text_len(b),
{
    let n = text_len(b)->Ok_0;
    assert(b[0] == c[0] && b[1] == c[1]);
    assert(b.subrange(2, n as int) =~= c.subrange(2, n as int)) by {
        assert forall|i: int| 0 <= i < n - 2 implies #[trigger] b.subrange(2, n as int)[i]
            == c.subrange(2, n as int)[i] by {
            assert(b[i + 2] == c[i + 2]);
        }
    }
}

proof fn lemma_key_len_prefix(b: Seq<u8>, c: Seq<u8>)
    requires
        key_len(b) matches Ok(n) && agree(b, c, n),
    ensures
        key_len(c) == key_len(b),
{
    assert(b[0] == c[0] && b[1] == c[1]);
}

/// Decoding reads only the bytes it consumes: a sequence that agrees with `b`
/// on them decodes in the same way.
pub proof fn lemma_object_len_prefix(b: Seq<u8>, c: Seq<u8>)
    requires
        object_len(b) matches Ok(n) && agree(b, c, n),
    ensures
        object_len(c) == object_len(b),
    decreases b.len(), 0nat, 0nat,
{
    lemma_object_len_bounds(b);
    let n = object_len(b)->Ok_0;
    assert(b[0] == c[0]);
    let k = kind_of_tag(b[0])->Some_0;
    lemma_agree_suffix(b, c, n, 1);
    lemma_payload_len_prefix(k, b.subrange(1, b.len() as int), c.subrange(1, c.len() as int));
}

pub proof fn lemma_payload_len_prefix(k: ObjectKind, b: Seq<u8>, c: Seq<u8>)
    requires
        payload_len(k, b) matches Ok(n) && agree(b, c, n),
    ensures
        payload_len(k, c) == payload_len(k, b),
    decreases b.len(), 0nat, 0nat,
{
    let n = payload_len(k, b)->Ok_0;
    match k {
        ObjectKind::Null => {},
        ObjectKind::Int => {},
        ObjectKind::Text => lemma_text_len_prefix(b, c),
        ObjectKind::Link => lemma_key_len_prefix(b, c),
        ObjectKind::List => {
            assert(b[0] == c[0] && b[1] == c[1]);
            lemma_agree_suffix(b, c, n, 2);
            lemma_items_len_prefix(
                b.subrange(2, b.len() as int),
                c.subrange(2, c.len() as int),
                be16(b),
            );
        },
        ObjectKind::Mapping => {
            assert(b[0] == c[0] && b[1] == c[1]);
            lemma_agree_suffix(b, c, n, 2);
            lemma_entries_len_prefix(
                b.subrange(2, b.len() as int),
                c.subrange(2, c.len() as int),
                be16(b),
            );
        },
    }
}

pub proof fn lemma_items_len_prefix(b: Seq<u8>, c: Seq<u8>, k: nat)
    requires
        items_len(b, k) matches Ok(n) && agree(b, c, n),
    ensures
        items_len(c, k) == items_len(b, k),
    decreases b.len(), 1nat, k,
{
    if k > 0 {
        let n = items_len(b, k)->Ok_0;
        let n1 = object_len(b)->Ok_0;
        lemma_items_len_bounds(b.subrange(n1 as int, b.len() as int), (k - 1) as nat);
        lemma_object_len_prefix(b, c);
        lemma_agree_suffix(b, c, n, n1);
        lemma_items_len_prefix(
            b.subrange(n1 as int, b.len() as int),
            c.subrange(n1 as int, c.len() as int),
            (k - 1) as nat,
        );
    }
}

pub proof fn lemma_entries_len_prefix(b: Seq<u8>, c: Seq<u8>, k: nat)
    requires
        entries_len(b, k) matches Ok(n) && agree(b, c, n),
    ensures
        entries_len(c, k) == entries_len(b, k),
    decreases b.len(), 1nat, k,
{
    if k > 0 {
        let n = entries_len(b, k)->Ok_0;
        let h = text_len(b)->Ok_0;
        let rb = b.subrange(h as int, b.len() as int);
        let rc = c.subrange(h as int, c.len() as int);
        let n1 = object_len(rb)->Ok_0;
        lemma_entries_len_bounds(rb.subrange(n1 as int, rb.len() as int), (k - 1) as nat);
        lemma_text_len_prefix(b, c);
        lemma_agree_suffix(b, c, n, h);
        lemma_object_len_prefix(rb, rc);
        lemma_agree_suffix(rb, rc, (n - h) as nat, n1);
        lemma_entries_len_prefix(
            rb.subrange(n1 as int, rb.len() as int),
            rc.subrange(n1 as int, rc.len() as int),
            (k - 1) as nat,
        );
    }
}


/// The wire encoding of a key with bytes `k`: its two-byte length, then `k`.
pub open spec fn key_encoding(k: Seq<u8>) -> Seq<u8> {
    be16_bytes(k.len()) + k
}

/// A non-empty byte string of at most 65535 bytes under which an object is
/// stored.
#[derive(Debug, PartialEq, Eq, Hash)]
pub struct Key {
    bytes: Vec<u8>,
}

impl View for Key {
    type V = Seq<u8>;

    closed spec fn view(&self) -> Seq<u8> {
        self.bytes@
    }
}

impl Clone for Key {
    fn clone(&self) -> (r: Key)
        ensures
            r@ == self@,
    {
        proof {
            use_type_invariant(self);
        }
        Key { bytes: self.bytes.clone() }
    }
}

impl Key {
    #[verifier::type_invariant]
    spec fn inv(&self) -> bool {
        1 <= self.bytes@.len() <= MAX_LEN
    }

    /// The number of bytes in the key, between 1 and 65535.
    pub fn len(&self) -> (r: usize)
        ensures
            r == self@.len(),
            1 <= r <= MAX_LEN,
    {
        proof {
            use_type_invariant(self);
        }
        self.bytes.len()
    }

    /// Splits the key encoding at the start of `bytes` (length and key bytes)
    /// from what follows it.
    pub fn validate_and_extract(bytes: &[u8]) -> (r: Result<(&[u8], &[u8]), ObjectError>)
        ensures
            splits_as(bytes@, key_len(bytes@), r),
    {
        if bytes.len() < 2 {
            return Err(ObjectError::Incomplete);
        }
        let n = read_u16_be(bytes) as usize;
        if n == 0 {
            return Err(ObjectError::MalformedData);
        }
        if bytes.len() - 2 < n {
            return Err(ObjectError::Incomplete);
        }
        Ok((slice_subrange(bytes, 0, n + 2), slice_subrange(bytes, n + 2, bytes.len())))
    }

    /// Decodes the key at the start of `bytes`, returning it and the bytes
    /// after it.
    pub fn new(bytes: &[u8]) -> (r: Result<(Key, &[u8]), ObjectError>)
        ensures
            match key_len(bytes@) {
                Ok(n) => r matches Ok((k, rest)) && key_encoding(k@) == bytes@.subrange(0, n as int)
                    && k@ == bytes@.subrange(2, n as int) && rest@ == bytes@.subrange(
                    n as int,
                    bytes@.len() as int,
                ),
                Err(e) => r matches Err(e2) && e2 == e,
            },
    {
        match Key::validate_and_extract(bytes) {
            Err(e) => Err(e),
            Ok((enc, rest)) => {
                let raw = slice_subrange(enc, 2, enc.len());
                let k = Key { bytes: slice_to_vec(raw) };
                proof {
                    let n = key_len(bytes@)->Ok_0;
                    assert(be16(bytes@.subrange(0, 2)) == be16(bytes@));
                    crate::bytes::lemma_be16_bytes_of_be16(bytes@.subrange(0, 2));
                    assert(key_encoding(k@) =~= bytes@.subrange(0, n as int));
                }
                Ok((k, rest))
            },
        }
    }

    /// A key with the bytes `raw`: empty or longer than 65535 bytes is
    /// malformed.
    pub fn from_slice(raw: &[u8]) -> (r: Result<Key, ObjectError>)
        ensures
            1 <= raw@.len() <= MAX_LEN ==> (r matches Ok(k) && k@ == raw@),
            !(1 <= raw@.len() <= MAX_LEN) ==> r == Err::<Key, ObjectError>(ObjectError::MalformedData),
    {
        if raw.len() == 0 || raw.len() > MAX_LEN {
            Err(ObjectError::MalformedData)
        } else {
            Ok(Key { bytes: slice_to_vec(raw) })
        }
    }

    /// The key's bytes, without the length.
    pub fn as_bytes(&self) -> (r: &[u8])
        ensures
            r@ == self@,
    {
        self.bytes.as_slice()
    }

    /// The key's encoding: its two-byte length, then its bytes.
    pub fn to_bytes(&self) -> (r: Vec<u8>)
        ensures
            r@ == key_encoding(self@),
            key_len(r@) == Ok::<nat, ObjectError>(r@.len()),
    {
        proof {
            use_type_invariant(self);
        }
        let mut out: Vec<u8> = Vec::new();
        push_u16_be(&mut out, self.bytes.len() as u16);
        crate::bytes::push_all(&mut out, self.bytes.as_slice());
        proof {
            lemma_be16_round_trip(self@.len());
            assert(out@.subrange(0, 2) =~= be16_bytes(self@.len()));
        }
        out
    }

    /// Whether the two keys hold the same bytes.
    pub fn same_as(&self, other: &Key) -> (r: bool)
        ensures
            r == (self@ == other@),
    {
        let a = self.bytes.as_slice();
        let b = other.bytes.as_slice();
        if a.len() != b.len() {
            return false;
        }
        let mut i: usize = 0;
        while i < a.len()
            invariant
                a@ == self@,
                b@ == other@,
                a@.len() == b@.len(),
                i <= a@.len(),
                forall|j: int| 0 <= j < i ==> a@[j] == b@[j],
            decreases a@.len() - i,
        {
            if a[i] != b[i] {
                return false;
            }
            i = i + 1;
        }
        assert(a@ =~= b@);
        true
    }
}

/// Decoding a key's encoding gives back that key and nothing after it.
pub proof fn law_key_round_trip(k: Seq<u8>)
    requires
        1 <= k.len() <= MAX_LEN,
    ensures
        key_len(key_encoding(k)) == Ok::<nat, ObjectError>(key_encoding(k).len()),
        key_encoding(k).subrange(2, key_encoding(k).len() as int) == k,
        key_encoding(k).subrange(key_encoding(k).len() as int, key_encoding(k).len() as int)
            == Seq::<u8>::empty(),
{
    lemma_be16_round_trip(k.len());
    let e = key_encoding(k);
    assert(be16(e) == be16(be16_bytes(k.len())));
    assert(e.subrange(2, e.len() as int) =~= k);
    assert(e.subrange(e.len() as int, e.len() as int) =~= Seq::<u8>::empty());
}


/// A stored value: a kind and the payload bytes of that kind.
///
/// Its view is its encoding, the kind's tag followed by the payload; every
/// object is one well-formed encoding.
#[derive(Debug)]
pub struct Object {
    kind: ObjectKind,
    data: Vec<u8>,
}

impl View for Object {
    type V = Seq<u8>;

    closed spec fn view(&self) -> Seq<u8> {
        seq![kind_tag(self.kind)] + self.data@
    }
}

impl Clone for Object {
    fn clone(&self) -> (r: Object)
        ensures
            r@ == self@,
    {
        proof {
            use_type_invariant(self);
        }
        Object { kind: self.kind, data: self.data.clone() }
    }
}

impl Object {
    #[verifier::type_invariant]
    spec fn inv(&self) -> bool {
        valid_object(seq![kind_tag(self.kind)] + self.data@)
    }

    /// Builds an object from its kind and payload, which together must form
    /// one encoding.
    pub(crate) fn from_parts(kind: ObjectKind, data: Vec<u8>) -> (r: Object)
        requires
            valid_object(seq![kind_tag(kind)] + data@),
        ensures
            r@ == seq![kind_tag(kind)] + data@,
    {
        Object { kind, data }
    }

    /// Every object is exactly one encoding.
    pub fn check_valid(&self)
        ensures
            valid_object(self@),
            self@.len() >= 1,
    {
        proof {
            use_type_invariant(self);
        }
    }

    /// The null object.
    pub fn null() -> (r: Object)
        ensures
            r@ == seq![0u8],
    {
        let r = Object { kind: ObjectKind::Null, data: Vec::new() };
        assert(r@ =~= seq![0u8]);
        r
    }

    /// The object held by `value`, or null.
    pub fn from_option(value: Option<Object>) -> (r: Object)
        ensures
            value matches Some(o) ==> r@ == o@,
            value is None ==> r@ == seq![0u8],
    {
        match value {
            Some(object) => object,
            None => Object::null(),
        }
    }

    /// The object's kind.
    pub fn kind(&self) -> (r: ObjectKind)
        ensures
            kind_tag(r) == self@[0],
            kind_of_tag(self@[0]) == Some(r),
    {
        self.kind
    }

    /// The object's payload.
    pub fn data(&self) -> (r: &[u8])
        ensures
            r@ == self@.subrange(1, self@.len() as int),
    {
        assert(self.data@ =~= self@.subrange(1, self@.len() as int));
        self.data.as_slice()
    }

    /// The object's encoding: its tag, then its payload.
    pub fn serialize(&self) -> (r: Vec<u8>)
        ensures
            r@ == self@,
    {
        let mut out: Vec<u8> = Vec::new();
        out.push(self.kind.tag());
        crate::bytes::push_all(&mut out, self.data.as_slice());
        assert(out@ =~= self@);
        out
    }

    /// Splits the object encoding at the start of `bytes` from what follows
    /// it, checking it without building the object.
    pub fn validate_and_extract(bytes: &[u8]) -> (r: Result<(&[u8], &[u8]), ObjectError>)
        ensures
            splits_as(bytes@, object_len(bytes@), r),
        decreases bytes@.len(), 1nat,
    {
        if bytes.len() == 0 {
            return Err(ObjectError::Incomplete);
        }
        let kind = match ObjectKind::try_from_tag(bytes[0]) {
            Ok(k) => k,
            Err(e) => return Err(e),
        };
        let p = slice_subrange(bytes, 1, bytes.len());
        let r = match kind {
            ObjectKind::Null => crate::types::Null::validate_and_extract(p),
            ObjectKind::Int => crate::types::Int::validate_and_extract(p),
            ObjectKind::Text => crate::types::Text::validate_and_extract(p),
            ObjectKind::List => crate::types::List::validate_and_extract(p),
            ObjectKind::Mapping => crate::types::Mapping::validate_and_extract(p),
            ObjectKind::Link => crate::types::Link::validate_and_extract(p),
        };
        match r {
            Err(e) => Err(e),
            Ok((c, rest)) => {
                let n = c.len() + 1;
                proof {
                    assert(p@.subrange(c@.len() as int, p@.len() as int) =~= bytes@.subrange(
                        n as int,
                        bytes@.len() as int,
                    ));
                }
                Ok((slice_subrange(bytes, 0, n), rest))
            },
        }
    }

    /// Decodes the object at the start of `bytes`, returning it and the bytes
    /// after it.
    pub fn deserialize(bytes: &[u8]) -> (r: Result<(Object, &[u8]), ObjectError>)
        ensures
            match object_len(bytes@) {
                Ok(n) => r matches Ok((o, rest)) && o@ == bytes@.subrange(0, n as int) && rest@
                    == bytes@.subrange(n as int, bytes@.len() as int),
                Err(e) => r matches Err(e2) && e2 == e,
            },
    {
        match Object::validate_and_extract(bytes) {
            Err(e) => Err(e),
            Ok((enc, rest)) => {
                proof {
                    lemma_object_len_bounds(bytes@);
                    lemma_object_len_prefix(bytes@, enc@);
                }
                let kind = match ObjectKind::try_from_tag(enc[0]) {
                    Ok(k) => k,
                    Err(e) => return Err(e),
                };
                let data = slice_to_vec(slice_subrange(enc, 1, enc.len()));
                proof {
                    assert(seq![kind_tag(kind)] + data@ =~= enc@);
                }
                Ok((Object { kind, data }, rest))
            },
        }
    }
}

/// Decoding then encoding: the encoding of a decoded object is exactly the
/// bytes that decoding consumed.
pub proof fn law_decode_then_encode(b: Seq<u8>, o: Seq<u8>, rest: Seq<u8>)
    requires
        object_len(b) matches Ok(n) && o == b.subrange(0, n as int) && rest == b.subrange(
            n as int,
            b.len() as int,
        ),
    ensures
        o == b.subrange(0, b.len() - rest.len()),
        valid_object(o),
{
    let n = object_len(b)->Ok_0;
    lemma_object_len_bounds(b);
    lemma_object_len_prefix(b, o);
}

/// Encoding then decoding: an object's encoding decodes to an object with
/// the same encoding, and nothing is left over.
pub proof fn law_encode_then_decode(o: Seq<u8>)
    requires
        valid_object(o),
    ensures
        object_len(o) == Ok::<nat, ObjectError>(o.len()),
        o.subrange(0, o.len() as int) == o,
        o.subrange(o.len() as int, o.len() as int) == Seq::<u8>::empty(),
{
    assert(o.subrange(0, o.len() as int) =~= o);
    assert(o.subrange(o.len() as int, o.len() as int) =~= Seq::<u8>::empty());
}

} // verus!
