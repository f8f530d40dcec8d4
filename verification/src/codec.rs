//! The record codec: a fixed-bound binary form of an [`Item`].
//!
//! A record is laid out as one byte holding the owner's length, the owner's
//! bytes, and the content's UTF-8 bytes; the whole must fit in
//! [`MAX_RECORD_SIZE`] bytes. Encoding and decoding are exact inverses of
//! each other ([`lemma_encode_decode_round_trip`]).

use vstd::prelude::*;
use vstd::string::StrSliceExecFns;
use vstd::utf8::{decode_utf8, decode_utf8_encode_utf8, encode_utf8, encode_utf8_decode_utf8,
    encode_utf8_valid_utf8, valid_utf8};
use crate::TodoError;
use crate::item::{Item, ItemV};
use crate::principal::{Principal, MAX_PRINCIPAL_LEN};

verus! {

/// Largest encoded record the store accepts, in bytes.
pub const MAX_RECORD_SIZE: usize = 128;

/// The bytes an item encodes to: the owner's length, the owner's bytes, the
/// content's UTF-8 bytes.
pub open spec fn spec_encode(item: ItemV) -> Seq<u8> {
    seq![item.owner.len() as u8] + item.owner + encode_utf8(item.content)
}

/// How many bytes [`spec_encode`] produces.
pub open spec fn encoded_len(item: ItemV) -> int {
    1 + item.owner.len() as int + encode_utf8(item.content).len() as int
}

/// The item a byte sequence decodes to: `None` on an empty, oversized or
/// otherwise malformed sequence.
pub open spec fn spec_decode(b: Seq<u8>) -> Option<ItemV> {
    if b.len() < 1 || b.len() > MAX_RECORD_SIZE {
        None
    } else {
        let n = b[0] as int;
        if n > MAX_PRINCIPAL_LEN || 1 + n > b.len() {
            None
        } else {
            let rest = b.subrange(1 + n, b.len() as int);
            if valid_utf8(rest) {
                Some(ItemV { owner: b.subrange(1, 1 + n), content: decode_utf8(rest) })
            } else {
                None
            }
        }
    }
}

/// Relies on `String::from_utf8`: it returns the string whose UTF-8
/// encoding is the given bytes exactly when those bytes are valid UTF-8,
/// and an error otherwise.
#[verifier::external_body]
fn string_from_utf8(bytes: Vec<u8>) -> (r: Option<String>)
    ensures
        match r {
            Some(s) => valid_utf8(bytes@) && s@ == decode_utf8(bytes@),
            None => !valid_utf8(bytes@),
        },
{
    match String::from_utf8(bytes) {
        Ok(s) => Some(s),
        Err(_) => None,
    }
}

/// Encodes an item, or reports that it does not fit the fixed bound.
pub fn encode(item: &Item) -> (r: Result<Vec<u8>, TodoError>)
    requires
        item.wf(),
    ensures
        match r {
            Ok(bytes) => {
                &&& bytes@ == spec_encode(item@)
                &&& bytes@.len() == encoded_len(item@)
                &&& bytes@.len() <= MAX_RECORD_SIZE
                &&& spec_decode(bytes@) == Some(item@)
            },
            Err(e) => e == TodoError::Codec && encoded_len(item@) > MAX_RECORD_SIZE,
        },
{
    let owner_bytes = item.owner.as_bytes();
    let content_bytes = item.content.as_str().as_bytes_vec();
    proof {
        assert(content_bytes@ == encode_utf8(item@.content));
    }
    if content_bytes.len() > MAX_RECORD_SIZE
        || 1 + owner_bytes.len() + content_bytes.len() > MAX_RECORD_SIZE {
        return Err(TodoError::Codec);
    }
    let mut out: Vec<u8> = Vec::new();
    out.push(owner_bytes.len() as u8);
    let n = owner_bytes.len();
    for i in 0..n
        invariant
            n == owner_bytes.len(),
            out@.len() == 1 + i,
            out@[0] == n as u8,
            forall|j: int| 0 <= j < i ==> out@[1 + j] == owner_bytes@[j],
    {
        out.push(owner_bytes[i]);
    }
    let m = content_bytes.len();
    for i in 0..m
        invariant
            n == owner_bytes.len(),
            m == content_bytes.len(),
            out@.len() == 1 + n + i,
            out@[0] == n as u8,
            forall|j: int| 0 <= j < n ==> out@[1 + j] == owner_bytes@[j],
            forall|j: int| 0 <= j < i ==> out@[1 + n + j] == content_bytes@[j],
    {
        out.push(content_bytes[i]);
    }
    proof {
        assert(out@ =~= spec_encode(item@));
        lemma_encode_decode_round_trip(item@);
    }
    Ok(out)
}

/// Decodes a record, or reports that the bytes are not a well-formed record
/// of allowed size.
pub fn decode(bytes: &Vec<u8>) -> (r: Result<Item, TodoError>)
    ensures
        match r {
            Ok(item) => spec_decode(bytes@) == Some(item@) && item.wf(),
            Err(e) => e == TodoError::Codec && spec_decode(bytes@) is None,
        },
{
    if bytes.len() < 1 || bytes.len() > MAX_RECORD_SIZE {
        return Err(TodoError::Codec);
    }
    let n = bytes[0] as usize;
    if n > MAX_PRINCIPAL_LEN || 1 + n > bytes.len() {
        return Err(TodoError::Codec);
    }
    let mut owner_bytes: Vec<u8> = Vec::new();
    for i in 0..n
        invariant
            n == bytes@[0] as int,
            1 + n <= bytes@.len(),
            owner_bytes@.len() == i,
            forall|j: int| 0 <= j < i ==> owner_bytes@[j] == bytes@[1 + j],
    {
        owner_bytes.push(bytes[1 + i]);
    }
    let mut rest: Vec<u8> = Vec::new();
    let len = bytes.len();
    for i in (1 + n)..len
        invariant
            n == bytes@[0] as int,
            1 + n <= len && len == bytes@.len(),
            rest@.len() == i - (1 + n),
            forall|j: int| 1 + n <= j < i ==> rest@[j - (1 + n)] == bytes@[j],
    {
        rest.push(bytes[i]);
    }
    proof {
        assert(owner_bytes@ =~= bytes@.subrange(1, 1 + n as int));
        assert(rest@ =~= bytes@.subrange(1 + n as int, bytes@.len() as int));
    }
    match string_from_utf8(rest) {
        Some(content) => {
            let owner = match Principal::from_bytes(owner_bytes) {
                Some(p) => p,
                None => {
                    return Err(TodoError::Codec);
                },
            };
            let item = Item::new(owner, content);
            Ok(item)
        },
        None => Err(TodoError::Codec),
    }
}

/// Round trip: decoding an encoded record gives the record back, for every
/// item whose owner fits the identity format and whose encoding fits the
/// record bound.
pub proof fn lemma_encode_decode_round_trip(item: ItemV)
    requires
        item.owner.len() <= MAX_PRINCIPAL_LEN,
        encoded_len(item) <= MAX_RECORD_SIZE,
    ensures
        spec_decode(spec_encode(item)) == Some(item),
{
    broadcast use encode_utf8_valid_utf8, encode_utf8_decode_utf8;

    let b = spec_encode(item);
    let n = item.owner.len() as int;
    assert(b.len() == encoded_len(item));
    assert(b[0] == n as u8);
    assert(b.subrange(1, 1 + n) =~= item.owner);
    assert(b.subrange(1 + n, b.len() as int) =~= encode_utf8(item.content));
    assert(spec_decode(b) == Some(ItemV { owner: item.owner, content: item.content }));
    assert(ItemV { owner: item.owner, content: item.content } =~= item);
}

/// Round trip the other way: the bytes a well-formed record decodes from
/// are exactly that item's encoding. In particular the encoded form of any
/// decoded record is within the record bound.
pub proof fn lemma_decode_encode_round_trip(b: Seq<u8>)
    requires
        spec_decode(b) is Some,
    ensures
        spec_encode(spec_decode(b)->0) == b,
        encoded_len(spec_decode(b)->0) == b.len(),
        encoded_len(spec_decode(b)->0) <= MAX_RECORD_SIZE,
{
    let item = spec_decode(b)->0;
    let n = b[0] as int;
    let rest = b.subrange(1 + n, b.len() as int);
    decode_utf8_encode_utf8(rest);
    assert(item.owner == b.subrange(1, 1 + n));
    assert(item.owner.len() == n);
    assert(spec_encode(item) =~= b);
}

} // verus!
