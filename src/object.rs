//! Blobs and trees, and their canonical byte encoding.

use vstd::prelude::*;
use vstd::utf8::*;
use crate::digest::{digest_hex, from_hex, hex_of, is_address, is_hex_text, sha_from_bytes, to_hex, unhex};

verus! {

broadcast use vstd::utf8::group_utf8_lib;

/// One entry of a tree: a mode token, a file name and the referenced address.
pub struct TreeEntry {
    pub mode: String,
    pub filename: String,
    pub sha: String,
}

/// A stored object: opaque bytes, or a directory listing whose entries keep
/// the order they were given in (they are not sorted, and the order takes
/// part in the encoding and so in the address).
pub enum Object {
    Blob { data: Vec<u8> },
    Tree { entries: Vec<TreeEntry> },
}

/// The logical content of a tree entry.
pub struct EntryModel {
    pub mode: Seq<char>,
    pub filename: Seq<char>,
    pub sha: Seq<char>,
}

/// The logical content of an object.
pub enum ObjectModel {
    Blob(Seq<u8>),
    Tree(Seq<EntryModel>),
}

/// Why a byte sequence is not the encoding of an object.
#[derive(Debug, PartialEq, Eq, Clone, Copy, Structural)]
pub enum DecodeError {
    /// No null byte ends the header.
    MissingHeader,
    /// The header names neither a blob nor a tree.
    UnknownType,
    /// The declared size is not the number of bytes after the header.
    LengthMismatch,
    /// A tree entry ends before its mode, name or digest is complete.
    TruncatedEntry,
    /// A text field is not valid UTF-8.
    Encoding,
}

impl View for TreeEntry {
    type V = EntryModel;

    open spec fn view(&self) -> EntryModel {
        EntryModel { mode: self.mode@, filename: self.filename@, sha: self.sha@ }
    }
}

impl View for Object {
    type V = ObjectModel;

    open spec fn view(&self) -> ObjectModel {
        match self {
            Object::Blob { data } => ObjectModel::Blob(data@),
            Object::Tree { entries } => ObjectModel::Tree(entries@.map_values(|e: TreeEntry| e@)),
        }
    }
}

/// The byte that ends a header's type and an entry's mode.
pub open spec fn space() -> u8 {
    32
}

/// `blob`
pub open spec fn blob_tag() -> Seq<u8> {
    seq![98u8, 108u8, 111u8, 98u8]
}

/// `tree`
pub open spec fn tree_tag() -> Seq<u8> {
    seq![116u8, 114u8, 101u8, 101u8]
}

/// The ASCII decimal digits of a number, without leading zeros.
pub open spec fn decimal(n: nat) -> Seq<u8>
    decreases n,
{
    if n < 10 {
        seq![(48 + n) as u8]
    } else {
        decimal(n / 10).push((48 + n % 10) as u8)
    }
}

/// A mode holds no space, a file name no null byte, and the digest is an address.
pub open spec fn entry_wf(e: EntryModel) -> bool {
    &&& forall|i: int| 0 <= i < encode_utf8(e.mode).len() ==> #[trigger] encode_utf8(e.mode)[i] != space()
    &&& forall|i: int| 0 <= i < encode_utf8(e.filename).len() ==> #[trigger] encode_utf8(e.filename)[i] != 0
    &&& is_address(e.sha)
}

/// An object that can be encoded and parsed back.
pub open spec fn object_wf(o: ObjectModel) -> bool {
    match o {
        ObjectModel::Blob(_) => true,
        ObjectModel::Tree(es) => entries_wf(es),
    }
}

/// Every entry is well formed.
pub open spec fn entries_wf(es: Seq<EntryModel>) -> bool {
    forall|i: int| 0 <= i < es.len() ==> entry_wf(#[trigger] es[i])
}

/// `mode SP filename NUL digest`, the digest as twenty raw bytes.
pub open spec fn entry_bytes(e: EntryModel) -> Seq<u8> {
    encode_utf8(e.mode) + seq![space()] + encode_utf8(e.filename) + seq![0u8] + unhex(e.sha)
}

/// The entries' encodings, one after another, in order.
pub open spec fn entries_bytes(es: Seq<EntryModel>) -> Seq<u8>
    decreases es.len(),
{
    if es.len() == 0 {
        Seq::empty()
    } else {
        entry_bytes(es[0]) + entries_bytes(es.drop_first())
    }
}

/// `tag SP size NUL payload`
pub open spec fn framed(tag: Seq<u8>, payload: Seq<u8>) -> Seq<u8> {
    tag + seq![space()] + decimal(payload.len()) + seq![0u8] + payload
}

/// The bytes that follow an object's header.
pub open spec fn payload_of(o: ObjectModel) -> Seq<u8> {
    match o {
        ObjectModel::Blob(d) => d,
        ObjectModel::Tree(es) => entries_bytes(es),
    }
}

/// The canonical encoding of an object.
pub open spec fn encode(o: ObjectModel) -> Seq<u8> {
    match o {
        ObjectModel::Blob(_) => framed(blob_tag(), payload_of(o)),
        ObjectModel::Tree(_) => framed(tree_tag(), payload_of(o)),
    }
}

/// The address of an object: the digest of its canonical encoding.
pub open spec fn address(o: ObjectModel) -> Seq<char> {
    digest_hex(encode(o))
}

/// The first position at or after `i` that holds `x`, or the length if none does.
pub open spec fn find_byte(b: Seq<u8>, x: u8, i: int) -> int
    decreases b.len() - i,
{
    if i >= b.len() {
        b.len() as int
    } else if b[i] == x {
        i
    } else {
        find_byte(b, x, i + 1)
    }
}

/// Prepends an entry to the outcome of parsing the rest.
pub open spec fn cons_entry(
    e: EntryModel,
    rest: Result<Seq<EntryModel>, DecodeError>,
) -> Result<Seq<EntryModel>, DecodeError> {
    match rest {
        Ok(es) => Ok(seq![e] + es),
        Err(err) => Err(err),
    }
}

/// Parses the tree entries of `p` from position `i` to the end.
pub open spec fn parse_entries_from(p: Seq<u8>, i: int) -> Result<Seq<EntryModel>, DecodeError>
    decreases p.len() - i via parse_entries_decreases
{
    if i < 0 || i >= p.len() {
        Ok(Seq::empty())
    } else {
        let s = find_byte(p, space(), i);
        let n = find_byte(p, 0, s + 1);
        if s >= p.len() || n >= p.len() || n + 21 > p.len() {
            Err(DecodeError::TruncatedEntry)
        } else if !valid_utf8(p.subrange(i, s)) || !valid_utf8(p.subrange(s + 1, n)) {
            Err(DecodeError::Encoding)
        } else {
            let e = EntryModel {
                mode: decode_utf8(p.subrange(i, s)),
                filename: decode_utf8(p.subrange(s + 1, n)),
                sha: hex_of(p.subrange(n + 1, n + 21)),
            };
            cons_entry(e, parse_entries_from(p, n + 21))
        }
    }
}

#[via_fn]
proof fn parse_entries_decreases(p: Seq<u8>, i: int) {
    if 0 <= i < p.len() {
        lemma_find_byte_bounds(p, space(), i);
        lemma_find_byte_bounds(p, 0, find_byte(p, space(), i) + 1);
    }
}

/// The position found lies between the start and the end.
pub proof fn lemma_find_byte_bounds(b: Seq<u8>, x: u8, i: int)
    requires
        0 <= i,
    ensures
        i <= find_byte(b, x, i) || i > b.len(),
        find_byte(b, x, i) <= b.len(),
        find_byte(b, x, i) < b.len() ==> b[find_byte(b, x, i)] == x,
    decreases b.len() - i,
{
    if i < b.len() && b[i] != x {
        lemma_find_byte_bounds(b, x, i + 1);
    }
}

/// Parses a tree payload into its entries.
pub open spec fn parse_entries(p: Seq<u8>) -> Result<Seq<EntryModel>, DecodeError> {
    parse_entries_from(p, 0)
}

/// Parses a canonical encoding back into an object. The size field must be
/// the canonical decimal text of the payload length: digits only, without
/// leading zeros.
pub open spec fn parse(b: Seq<u8>) -> Result<ObjectModel, DecodeError> {
    let h = find_byte(b, 0, 0);
    if h >= b.len() {
        Err(DecodeError::MissingHeader)
    } else if h < 5 || b[4] != space() || (b.subrange(0, 4) != blob_tag() && b.subrange(0, 4)
        != tree_tag()) {
        Err(DecodeError::UnknownType)
    } else if !valid_utf8(b.subrange(5, h)) {
        Err(DecodeError::Encoding)
    } else if b.subrange(5, h) != decimal((b.len() - h - 1) as nat) {
        Err(DecodeError::LengthMismatch)
    } else {
        let payload = b.subrange(h + 1, b.len() as int);
        if b.subrange(0, 4) == blob_tag() {
            Ok(ObjectModel::Blob(payload))
        } else {
            match parse_entries(payload) {
                Ok(es) => Ok(ObjectModel::Tree(es)),
                Err(e) => Err(e),
            }
        }
    }
}


/// The outcome of parsing, seen through the views.
pub open spec fn decoded(r: Result<Object, DecodeError>) -> Result<ObjectModel, DecodeError> {
    match r {
        Ok(o) => Ok(o@),
        Err(e) => Err(e),
    }
}

/// The outcome of parsing entries, seen through the views.
pub open spec fn decoded_entries(r: Result<Vec<TreeEntry>, DecodeError>) -> Result<
    Seq<EntryModel>,
    DecodeError,
> {
    match r {
        Ok(v) => Ok(v@.map_values(|e: TreeEntry| e@)),
        Err(e) => Err(e),
    }
}

/// Places parsed entries before the outcome of parsing the rest.
pub open spec fn prepend_all(
    es: Seq<EntryModel>,
    rest: Result<Seq<EntryModel>, DecodeError>,
) -> Result<Seq<EntryModel>, DecodeError> {
    match rest {
        Ok(r) => Ok(es + r),
        Err(err) => Err(err),
    }
}

proof fn lemma_entries_bytes_push(es: Seq<EntryModel>, e: EntryModel)
    ensures
        entries_bytes(es.push(e)) == entries_bytes(es) + entry_bytes(e),
    decreases es.len(),
{
    if es.len() == 0 {
        assert(es.push(e).drop_first() =~= Seq::<EntryModel>::empty());
        assert(entries_bytes(es.push(e).drop_first()) == Seq::<u8>::empty());
        assert(es.push(e)[0] == e);
        assert(entries_bytes(es) == Seq::<u8>::empty());
        assert(entries_bytes(es.push(e)) =~= entries_bytes(es) + entry_bytes(e));
    } else {
        assert(es.push(e).drop_first() =~= es.drop_first().push(e));
        lemma_entries_bytes_push(es.drop_first(), e);
        assert(es.push(e)[0] == es[0]);
        assert(entries_bytes(es.push(e)) == entry_bytes(es[0]) + entries_bytes(es.drop_first().push(e)));
        assert(entries_bytes(es) == entry_bytes(es[0]) + entries_bytes(es.drop_first()));
        assert(entries_bytes(es.push(e)) =~= entries_bytes(es) + entry_bytes(e));
    }
}

/// Relies on String::from_utf8: it accepts exactly the valid UTF-8 sequences
/// and keeps the characters they encode.
#[verifier::external_body]
fn utf8_string(v: Vec<u8>) -> (r: Option<String>)
    ensures
        r is Some <==> valid_utf8(v@),
        r matches Some(s) ==> s@ == decode_utf8(v@),
{
    String::from_utf8(v).ok()
}

/// The ASCII decimal digits of `n`.
fn decimal_bytes(n: usize) -> (r: Vec<u8>)
    ensures
        r@ == decimal(n as nat),
    decreases n,
{
    if n < 10 {
        let mut v: Vec<u8> = Vec::new();
        v.push((48 + n) as u8);
        v
    } else {
        let mut v = decimal_bytes(n / 10);
        v.push((48 + n % 10) as u8);
        v
    }
}

/// A copy of `b[from..to]`.
fn copy_range(b: &[u8], from: usize, to: usize) -> (r: Vec<u8>)
    requires
        from <= to <= b@.len(),
    ensures
        r@ == b@.subrange(from as int, to as int),
{
    let mut v: Vec<u8> = Vec::new();
    v.extend_from_slice(&b[from..to]);
    v
}

/// The first position at or after `start` that holds `x`, or the length.
fn find_byte_from(b: &[u8], x: u8, start: usize) -> (r: usize)
    requires
        start <= b@.len(),
    ensures
        r as int == find_byte(b@, x, start as int),
        start <= r <= b@.len(),
{
    let mut i = start;
    while i < b.len()
        invariant
            start <= i <= b@.len(),
            find_byte(b@, x, start as int) == find_byte(b@, x, i as int),
        decreases b@.len() - i,
    {
        if b[i] == x {
            return i;
        }
        i = i + 1;
    }
    i
}

/// Whether `b[from..to]` equals `d`.
fn range_equals(b: &[u8], from: usize, to: usize, d: &Vec<u8>) -> (r: bool)
    requires
        from <= to <= b@.len(),
    ensures
        r == (b@.subrange(from as int, to as int) == d@),
{
    if to - from != d.len() {
        return false;
    }
    let mut i: usize = 0;
    while i < d.len()
        invariant
            to - from == d@.len(),
            from <= to <= b@.len(),
            forall|j: int| 0 <= j < i ==> b@[from + j] == d@[j],
        decreases d@.len() - i,
    {
        if b[from + i] != d[i] {
            assert(b@.subrange(from as int, to as int)[i as int] != d@[i as int]);
            return false;
        }
        i = i + 1;
    }
    assert(b@.subrange(from as int, to as int) =~= d@);
    true
}

/// Parses a tree payload: entries of `mode SP filename NUL digest` until the end.
pub fn parse_tree_entries(obj_content: &[u8]) -> (r: Result<Vec<TreeEntry>, DecodeError>)
    ensures
        decoded_entries(r) == parse_entries(obj_content@),
{
    let p = obj_content;
    let mut out: Vec<TreeEntry> = Vec::new();
    let mut i: usize = 0;
    while i < p.len()
        invariant
            p == obj_content,
            i <= p@.len(),
            parse_entries(p@) == prepend_all(
                out@.map_values(|e: TreeEntry| e@),
                parse_entries_from(p@, i as int),
            ),
        decreases p@.len() - i,
    {
        let ghost done = out@.map_values(|e: TreeEntry| e@);
        let s = find_byte_from(p, 32, i);
        if s >= p.len() {
            return Err(DecodeError::TruncatedEntry);
        }
        let n = find_byte_from(p, 0, s + 1);
        if n >= p.len() || p.len() - n < 21 {
            return Err(DecodeError::TruncatedEntry);
        }
        let mode = utf8_string(copy_range(p, i, s));
        let filename = utf8_string(copy_range(p, s + 1, n));
        match (mode, filename) {
            (Some(mode), Some(filename)) => {
                let sha = to_hex(&p[n + 1..n + 21]);
                let entry = TreeEntry { mode, filename, sha };
                let ghost e = entry@;
                out.push(entry);
                proof {
                    assert(out@.map_values(|e: TreeEntry| e@) =~= done.push(e));
                    match parse_entries_from(p@, n + 21) {
                        Ok(rest) => {
                            assert(done + (seq![e] + rest) =~= done.push(e) + rest);
                        },
                        Err(_) => {},
                    }
                }
                i = n + 21;
            },
            _ => {
                return Err(DecodeError::Encoding);
            },
        }
    }
    proof {
        let done = out@.map_values(|e: TreeEntry| e@);
        assert(done + Seq::<EntryModel>::empty() =~= done);
    }
    Ok(out)
}


/// The entries' encodings, one after another.
fn encode_entries(entries: &Vec<TreeEntry>) -> (r: Vec<u8>)
    requires
        forall|i: int| 0 <= i < entries@.len() ==> entry_wf(#[trigger] entries@[i]@),
    ensures
        r@ == entries_bytes(entries@.map_values(|e: TreeEntry| e@)),
{
    let ghost models = entries@.map_values(|e: TreeEntry| e@);
    let mut out: Vec<u8> = Vec::new();
    let mut i: usize = 0;
    proof {
        assert(models.take(0) =~= Seq::<EntryModel>::empty());
    }
    while i < entries.len()
        invariant
            i <= entries@.len(),
            models == entries@.map_values(|e: TreeEntry| e@),
            forall|k: int| 0 <= k < entries@.len() ==> entry_wf(#[trigger] entries@[k]@),
            out@ == entries_bytes(models.take(i as int)),
        decreases entries@.len() - i,
    {
        let e = &entries[i];
        let ghost m = e@;
        let ghost before = out@;
        assert(entry_wf(entries@[i as int]@));
        out.extend_from_slice(e.mode.as_str().as_bytes());
        out.push(32);
        out.extend_from_slice(e.filename.as_str().as_bytes());
        out.push(0);
        if let Ok(raw) = from_hex(&e.sha) {
            out.extend_from_slice(raw.as_slice());
        }
        proof {
            assert(is_hex_text(m.sha));
            lemma_entries_bytes_push(models.take(i as int), m);
            assert(models.take(i + 1) =~= models.take(i as int).push(m));
            assert(out@ =~= before + entry_bytes(m));
        }
        i = i + 1;
    }
    proof {
        assert(models.take(i as int) =~= models);
    }
    out
}

/// `tag SP size NUL payload`
fn frame(tag: &[u8], payload: &Vec<u8>) -> (r: Vec<u8>)
    ensures
        r@ == framed(tag@, payload@),
{
    let mut out: Vec<u8> = Vec::new();
    out.extend_from_slice(tag);
    out.push(32);
    let size = decimal_bytes(payload.len());
    out.extend_from_slice(size.as_slice());
    out.push(0);
    out.extend_from_slice(payload.as_slice());
    proof {
        assert(out@ =~= framed(tag@, payload@));
    }
    out
}

impl TreeEntry {
    /// Whether the entry can be encoded and parsed back unchanged.
    pub fn is_well_formed(&self) -> (r: bool)
        ensures
            r == entry_wf(self@),
    {
        let mode = self.mode.as_str().as_bytes();
        let mut i: usize = 0;
        while i < mode.len()
            invariant
                i <= mode@.len(),
                mode@ == encode_utf8(self.mode@),
                forall|k: int| 0 <= k < i ==> mode@[k] != space(),
            decreases mode@.len() - i,
        {
            if mode[i] == 32 {
                assert(encode_utf8(self@.mode)[i as int] == space());
                return false;
            }
            i = i + 1;
        }
        let name = self.filename.as_str().as_bytes();
        let mut j: usize = 0;
        while j < name.len()
            invariant
                j <= name@.len(),
                name@ == encode_utf8(self.filename@),
                forall|k: int| 0 <= k < j ==> name@[k] != 0,
            decreases name@.len() - j,
        {
            if name[j] == 0 {
                assert(encode_utf8(self@.filename)[j as int] == 0);
                return false;
            }
            j = j + 1;
        }
        crate::digest::check_address(&self.sha)
    }
}

impl Object {
    /// Whether the object can be encoded and parsed back unchanged.
    pub fn is_well_formed(&self) -> (r: bool)
        ensures
            r == object_wf(self@),
    {
        match self {
            Object::Blob { .. } => true,
            Object::Tree { entries } => {
                let mut i: usize = 0;
                while i < entries.len()
                    invariant
                        i <= entries@.len(),
                        self@ == ObjectModel::Tree(entries@.map_values(|e: TreeEntry| e@)),
                        forall|k: int| 0 <= k < i ==> entry_wf(#[trigger] entries@[k]@),
                    decreases entries@.len() - i,
                {
                    if !entries[i].is_well_formed() {
                        let ghost ms = entries@.map_values(|e: TreeEntry| e@);
                        assert(ms[i as int] == entries@[i as int]@);
                        assert(ms.len() == entries@.len());
                        assert(!entry_wf(ms[i as int]));
                        assert(!entries_wf(ms));
                        return false;
                    }
                    i = i + 1;
                }
                proof {
                    let ms = entries@.map_values(|e: TreeEntry| e@);
                    assert forall|k: int| 0 <= k < ms.len() implies entry_wf(#[trigger] ms[k]) by {
                        assert(ms[k] == entries@[k]@);
                    }
                }
                true
            },
        }
    }

    /// The canonical encoding: a `blob` or `tree` header with the payload size,
    /// a null byte, then the payload.
    pub fn to_bytes(&self) -> (r: Vec<u8>)
        requires
            object_wf(self@),
        ensures
            r@ == encode(self@),
    {
        match self {
            Object::Blob { data } => frame(&[98u8, 108u8, 111u8, 98u8], data),
            Object::Tree { entries } => {
                proof {
                    let ms = entries@.map_values(|e: TreeEntry| e@);
                    assert(self@ == ObjectModel::Tree(ms));
                    assert(entries_wf(ms));
                    assert forall|k: int| 0 <= k < entries@.len() implies entry_wf(
                        #[trigger] entries@[k]@,
                    ) by {
                        assert(ms.len() == entries@.len());
                        assert(ms[k] == entries@[k]@);
                        assert(entry_wf(ms[k]));
                    }
                }
                let payload = encode_entries(entries);
                frame(&[116u8, 114u8, 101u8, 101u8], &payload)
            },
        }
    }

    /// The object's address: the SHA-1 digest of its canonical encoding, in hex.
    pub fn sha(&self) -> (r: String)
        requires
            object_wf(self@),
        ensures
            r@ == address(self@),
            is_address(r@),
    {
        sha_from_bytes(self.to_bytes().as_slice())
    }

    /// Parses a canonical encoding back into an object; the size field must be
    /// the canonical decimal text of the payload length.
    pub fn from_bytes(b: &[u8]) -> (r: Result<Object, DecodeError>)
        ensures
            decoded(r) == parse(b@),
    {
        let h = find_byte_from(b, 0, 0);
        if h >= b.len() {
            return Err(DecodeError::MissingHeader);
        }
        if h < 5 || b[4] != 32 {
            return Err(DecodeError::UnknownType);
        }
        let is_blob = b[0] == 98 && b[1] == 108 && b[2] == 111 && b[3] == 98;
        let is_tree = b[0] == 116 && b[1] == 114 && b[2] == 101 && b[3] == 101;
        proof {
            let t = b@.subrange(0, 4);
            assert(is_blob == (t =~= blob_tag()));
            assert(is_tree == (t =~= tree_tag()));
        }
        if !is_blob && !is_tree {
            return Err(DecodeError::UnknownType);
        }
        if utf8_string(copy_range(b, 5, h)).is_none() {
            return Err(DecodeError::Encoding);
        }
        let size = decimal_bytes(b.len() - h - 1);
        if !range_equals(b, 5, h, &size) {
            return Err(DecodeError::LengthMismatch);
        }
        let payload = copy_range(b, h + 1, b.len());
        if is_blob {
            Ok(Object::Blob { data: payload })
        } else {
            match parse_tree_entries(payload.as_slice()) {
                Ok(entries) => Ok(Object::Tree { entries }),
                Err(e) => Err(e),
            }
        }
    }
}

} // verus!
