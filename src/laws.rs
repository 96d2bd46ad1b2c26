//! What holds across the codec, the digest and the stored form.

use vstd::prelude::*;
use vstd::utf8::*;
use crate::digest::{digest_hex, lemma_hex_of_unhex, unhex};
use crate::object::{
    address, blob_tag, decimal, encode, entries_bytes, entries_wf, entry_bytes, entry_wf,
    find_byte, framed, lemma_find_byte_bounds, object_wf, parse, parse_entries, parse_entries_from, prepend_all, space,
    tree_tag, DecodeError, EntryModel, ObjectModel,
};
use crate::store::{deflate_of, stored_bytes, stored_object, StoreError};

verus! {

broadcast use vstd::utf8::group_utf8_lib;

proof fn lemma_find_byte_at(b: Seq<u8>, x: u8, i: int, k: int)
    requires
        0 <= i <= k <= b.len(),
        forall|j: int| i <= j < k ==> b[j] != x,
        k < b.len() ==> b[k] == x,
    ensures
        find_byte(b, x, i) == k,
    decreases k - i,
{
    if i < k {
        lemma_find_byte_at(b, x, i + 1, k);
    }
}

proof fn lemma_decimal_digits(n: nat)
    ensures
        decimal(n).len() >= 1,
        forall|i: int| 0 <= i < decimal(n).len() ==> 48 <= #[trigger] decimal(n)[i] <= 57,
    decreases n,
{
    if n >= 10 {
        lemma_decimal_digits(n / 10);
    }
}

proof fn lemma_parse_entries_prefix(pre: Seq<u8>, es: Seq<EntryModel>, tail: Seq<u8>)
    requires
        entries_wf(es),
    ensures
        ({
            let b = pre + entries_bytes(es) + tail;
            parse_entries_from(b, pre.len() as int) == prepend_all(
                es,
                parse_entries_from(b, (pre.len() + entries_bytes(es).len()) as int),
            )
        }),
    decreases es.len(),
{
    let b = pre + entries_bytes(es) + tail;
    if es.len() == 0 {
        assert(entries_bytes(es) =~= Seq::<u8>::empty());
        match parse_entries_from(b, pre.len() as int) {
            Ok(r) => {
                assert(es + r =~= r);
            },
            Err(_) => {},
        }
    } else {
        let e = es[0];
        let rest = es.drop_first();
        assert(entry_wf(e));
        let mb = encode_utf8(e.mode);
        let fb = encode_utf8(e.filename);
        let u = unhex(e.sha);
        let i = pre.len() as int;
        let s = i + mb.len();
        let n = s + 1 + fb.len();
        let pre2 = pre + entry_bytes(e);
        assert(b =~= pre + mb + seq![space()] + fb + seq![0u8] + u + entries_bytes(rest) + tail);
        assert(b =~= pre2 + entries_bytes(rest) + tail);
        assert(pre2.len() == n + 21);
        assert forall|j: int| i <= j < s implies b[j] != space() by {
            assert(b[j] == mb[j - i]);
        }
        assert(b[s] == space());
        lemma_find_byte_at(b, space(), i, s);
        assert forall|j: int| s + 1 <= j < n implies b[j] != 0 by {
            assert(b[j] == fb[j - s - 1]);
        }
        assert(b[n] == 0);
        lemma_find_byte_at(b, 0, s + 1, n);
        assert(b.subrange(i, s) =~= mb);
        assert(b.subrange(s + 1, n) =~= fb);
        assert(b.subrange(n + 1, n + 21) =~= u);
        lemma_hex_of_unhex(e.sha);
        assert(entries_wf(rest)) by {
            assert forall|k: int| 0 <= k < rest.len() implies entry_wf(#[trigger] rest[k]) by {
                assert(rest[k] == es[k + 1]);
            }
        }
        lemma_parse_entries_prefix(pre2, rest, tail);
        assert(pre2.len() + entries_bytes(rest).len() == pre.len() + entries_bytes(es).len());
        match parse_entries_from(b, (pre.len() + entries_bytes(es).len()) as int) {
            Ok(r) => {
                assert(seq![e] + (rest + r) =~= es + r);
            },
            Err(_) => {},
        }
    }
}

proof fn lemma_parse_entries_after(pre: Seq<u8>, es: Seq<EntryModel>)
    requires
        entries_wf(es),
    ensures
        parse_entries_from(pre + entries_bytes(es), pre.len() as int) == Ok::<
            Seq<EntryModel>,
            DecodeError,
        >(es),
{
    let b = pre + entries_bytes(es);
    lemma_parse_entries_prefix(pre, es, Seq::empty());
    assert(b + Seq::<u8>::empty() =~= b);
    assert(es + Seq::<EntryModel>::empty() =~= es);
}

proof fn lemma_parse_framed(tag: Seq<u8>, payload: Seq<u8>)
    requires
        tag == blob_tag() || tag == tree_tag(),
    ensures
        ({
            let b = framed(tag, payload);
            let h = 5 + decimal(payload.len()).len() as int;
            &&& find_byte(b, 0, 0) == h
            &&& h < b.len()
            &&& b[4] == space()
            &&& b.subrange(0, 4) == tag
            &&& b.subrange(5, h) == decimal((b.len() - h - 1) as nat)
            &&& valid_utf8(b.subrange(5, h))
            &&& b.subrange(h + 1, b.len() as int) == payload
        }),
{
    let b = framed(tag, payload);
    let d = decimal(payload.len());
    let h = 5 + d.len() as int;
    lemma_decimal_digits(payload.len());
    assert forall|j: int| 0 <= j < h implies b[j] != 0 by {
        if j >= 5 {
            assert(b[j] == d[j - 5]);
        }
    }
    lemma_find_byte_at(b, 0, 0, h);
    lemma_decimal_valid_utf8(payload.len());
    assert(b.subrange(0, 4) =~= tag);
    assert(b.subrange(5, h) =~= d);
    assert(b.subrange(h + 1, b.len() as int) =~= payload);
}

/// Parsing the canonical encoding of a well-formed object gives the object
/// back: the same blob bytes, or the same tree entries in the same order.
pub proof fn lemma_round_trip(o: ObjectModel)
    requires
        object_wf(o),
    ensures
        parse(encode(o)) == Ok::<ObjectModel, DecodeError>(o),
{
    assert(blob_tag() != tree_tag()) by {
        assert(blob_tag()[0] != tree_tag()[0]);
    }
    match o {
        ObjectModel::Blob(d) => {
            lemma_parse_framed(blob_tag(), d);
        },
        ObjectModel::Tree(es) => {
            let p = entries_bytes(es);
            lemma_parse_framed(tree_tag(), p);
            lemma_parse_entries_after(Seq::empty(), es);
            assert(Seq::<u8>::empty() + p =~= p);
        },
    }
}


/// Equal objects have equal encodings and equal addresses.
pub proof fn lemma_deterministic(o1: ObjectModel, o2: ObjectModel)
    requires
        o1 == o2,
    ensures
        encode(o1) == encode(o2),
        address(o1) == address(o2),
{
}

/// Blobs with equal bytes have the same address.
pub proof fn lemma_content_addressing(b1: Seq<u8>, b2: Seq<u8>)
    requires
        b1 == b2,
    ensures
        address(ObjectModel::Blob(b1)) == address(ObjectModel::Blob(b2)),
        address(ObjectModel::Blob(b1)) == digest_hex(encode(ObjectModel::Blob(b1))),
{
}

/// Compression gives the same bytes for the same input.
pub proof fn lemma_compression_deterministic(b1: Seq<u8>, b2: Seq<u8>)
    requires
        b1 == b2,
    ensures
        deflate_of(b1) == deflate_of(b2),
{
}

/// Two writes of one well-formed object file identical bytes under the same
/// address, and those bytes read back as the object's encoding and parse back
/// into the object: writing again changes nothing.
pub proof fn lemma_write_idempotent(o: ObjectModel, first: Seq<u8>, second: Seq<u8>)
    requires
        object_wf(o),
        first == deflate_of(encode(o)),
        second == deflate_of(encode(o)),
        stored_bytes(first) == Ok::<Seq<u8>, StoreError>(encode(o)),
    ensures
        first == second,
        stored_bytes(second) == Ok::<Seq<u8>, StoreError>(encode(o)),
        stored_object(first) == Ok::<ObjectModel, StoreError>(o),
        stored_object(second) == Ok::<ObjectModel, StoreError>(o),
{
    lemma_round_trip(o);
}

proof fn lemma_decimal_valid_utf8(n: nat)
    ensures
        valid_utf8(decimal(n)),
{
    let d = decimal(n);
    lemma_decimal_digits(n);
    assert(d.subrange(0, 0) =~= Seq::<u8>::empty());
    assert(partial_valid_utf8(d, 0));
    assert forall|i: int| 0 <= i < d.len() implies #[trigger] is_leading_byte_width_1(d[i]) by {}
    partial_valid_utf8_extend_ascii_block(d, 0, d.len() as int);
    assert(d.subrange(0, d.len() as int) =~= d);
}

/// A header whose type is neither `blob` nor `tree` is refused as of unknown type.
pub proof fn lemma_unknown_type(b: Seq<u8>)
    requires
        find_byte(b, 0, 0) < b.len(),
        b.len() >= 4 ==> b.subrange(0, 4) != blob_tag() && b.subrange(0, 4) != tree_tag(),
    ensures
        parse(b) == Err::<ObjectModel, DecodeError>(DecodeError::UnknownType),
{
    lemma_find_byte_bounds(b, 0, 0);
}

proof fn lemma_decimal_injective(a: nat, b: nat)
    requires
        decimal(a) == decimal(b),
    ensures
        a == b,
    decreases a,
{
    lemma_decimal_digits(a / 10);
    lemma_decimal_digits(b / 10);
    if a < 10 && b < 10 {
        assert(decimal(a)[0] == (48 + a) as u8);
        assert(decimal(b)[0] == (48 + b) as u8);
        assert(decimal(a)[0] == decimal(b)[0]);
    } else if a >= 10 && b >= 10 {
        let n = decimal(a).len() - 1;
        assert(decimal(a)[n] == decimal(b)[n]);
        assert(decimal(a)[n] == (48 + a % 10) as u8);
        assert(decimal(b)[n] == (48 + b % 10) as u8);
        assert(decimal(a / 10) =~= decimal(a).drop_last());
        assert(decimal(b / 10) =~= decimal(b).drop_last());
        lemma_decimal_injective(a / 10, b / 10);
        assert(a % 10 == b % 10);
        assert(a == 10 * (a / 10) + a % 10 && b == 10 * (b / 10) + b % 10) by (nonlinear_arith);
    } else if a < 10 {
        assert(decimal(a).len() == 1);
        assert(decimal(b).len() == decimal(b / 10).len() + 1);
    } else {
        assert(decimal(b).len() == 1);
        assert(decimal(a).len() == decimal(a / 10).len() + 1);
    }
}

/// A blob whose declared size exceeds the bytes that follow its header is
/// refused with a length mismatch.
pub proof fn lemma_blob_too_short(declared: nat, data: Seq<u8>)
    requires
        declared > data.len(),
    ensures
        parse(blob_tag() + seq![space()] + decimal(declared) + seq![0u8] + data) == Err::<
            ObjectModel,
            DecodeError,
        >(DecodeError::LengthMismatch),
{
    let b = blob_tag() + seq![space()] + decimal(declared) + seq![0u8] + data;
    let d = decimal(declared);
    let h = 5 + d.len() as int;
    lemma_decimal_digits(declared);
    assert forall|j: int| 0 <= j < h implies b[j] != 0 by {
        if j >= 5 {
            assert(b[j] == d[j - 5]);
        }
    }
    lemma_find_byte_at(b, 0, 0, h);
    assert(b.subrange(0, 4) =~= blob_tag());
    assert(b.subrange(5, h) =~= d);
    lemma_decimal_valid_utf8(declared);
    if d == decimal((b.len() - h - 1) as nat) {
        lemma_decimal_injective(declared, (b.len() - h - 1) as nat);
    }
}


/// A tree payload that ends partway through an entry, after any number of
/// complete entries, is refused as truncated.
pub proof fn lemma_truncated_entry(es: Seq<EntryModel>, e: EntryModel, k: int)
    requires
        entries_wf(es),
        entry_wf(e),
        0 < k < entry_bytes(e).len(),
    ensures
        parse_entries(entries_bytes(es) + entry_bytes(e).subrange(0, k)) == Err::<
            Seq<EntryModel>,
            DecodeError,
        >(DecodeError::TruncatedEntry),
{
    let t = entry_bytes(e).subrange(0, k);
    let b = entries_bytes(es) + t;
    let start = entries_bytes(es).len() as int;
    lemma_parse_entries_prefix(Seq::empty(), es, t);
    assert(Seq::<u8>::empty() + entries_bytes(es) + t =~= b);
    let mb = encode_utf8(e.mode);
    let fb = encode_utf8(e.filename);
    let eb = entry_bytes(e);
    assert(eb =~= mb + seq![space()] + fb + seq![0u8] + unhex(e.sha));
    assert(b.len() == start + k);
    assert forall|j: int| start <= j < b.len() implies #[trigger] b[j] == eb[j - start] by {}
    let s = start + mb.len();
    if k <= mb.len() {
        assert forall|j: int| start <= j < b.len() implies b[j] != space() by {
            assert(b[j] == mb[j - start]);
        }
        lemma_find_byte_at(b, space(), start, b.len() as int);
    } else {
        assert forall|j: int| start <= j < s implies b[j] != space() by {
            assert(b[j] == mb[j - start]);
        }
        lemma_find_byte_at(b, space(), start, s);
        let n = s + 1 + fb.len();
        if k <= mb.len() + 1 + fb.len() {
            assert forall|j: int| s + 1 <= j < b.len() implies b[j] != 0 by {
                assert(b[j] == fb[j - s - 1]);
            }
            lemma_find_byte_at(b, 0, s + 1, b.len() as int);
        } else {
            assert forall|j: int| s + 1 <= j < n implies b[j] != 0 by {
                assert(b[j] == fb[j - s - 1]);
            }
            lemma_find_byte_at(b, 0, s + 1, n);
        }
    }
}

} // verus!
