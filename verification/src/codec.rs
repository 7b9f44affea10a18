//! The wire codec: requests and responses travel as self-describing binary
//! documents. A document is a little-endian 32-bit total length, a run of
//! tagged and named elements, and a trailing zero byte. Text fields are
//! length-prefixed UTF-8 strings, the header map is an embedded document of
//! string elements, and a body is either a null element or an embedded
//! array document holding one 32-bit element per byte, named by its decimal
//! index. The field `kind` travels under the wire name `type`.
//!
//! `spec_encode_request` / `spec_encode_response` state the exact bytes of
//! an encoding; `spec_decode_request` / `spec_decode_response` state exactly
//! which byte strings are accepted and what they decode to. The executable
//! functions are proved to match them, and the round-trip lemmas tie the
//! two directions together.

use crate::MAX_DOCUMENT_LEN;
use crate::types::Request;
use crate::types::RequestView;
use crate::types::Response;
use crate::types::ResponseView;
use crate::types::Status;
use crate::types::Type;
use crate::types::headers_view;
use crate::types::opt_bytes_view;
use vstd::prelude::*;
use vstd::utf8::encode_utf8;
use vstd::utf8::decode_utf8;
use vstd::utf8::valid_utf8;

verus! {

// ---------------------------------------------------------------------------
// Little-endian 32-bit lengths
// ---------------------------------------------------------------------------
/// The four little-endian bytes of `n`.
pub open spec fn le32_bytes(n: u32) -> Seq<u8> {
    seq![
        (n & 0xff) as u8,
        ((n >> 8) & 0xff) as u8,
        ((n >> 16) & 0xff) as u8,
        ((n >> 24) & 0xff) as u8,
    ]
}

/// The value four little-endian bytes hold.
pub open spec fn le32_value(b: Seq<u8>) -> u32
    recommends
        b.len() == 4,
{
    (b[0] as u32) | ((b[1] as u32) << 8) | ((b[2] as u32) << 16) | ((b[3] as u32) << 24)
}

pub proof fn lemma_le32_roundtrip(n: u32)
    ensures
        le32_value(le32_bytes(n)) == n,
{
    assert((((n & 0xff) as u8) as u32) | ((((n >> 8) & 0xff) as u8) as u32) << 8 | ((((n >> 16)
        & 0xff) as u8) as u32) << 16 | ((((n >> 24) & 0xff) as u8) as u32) << 24 == n)
        by (bit_vector);
}

/// Appends the four little-endian bytes of `n`.
fn push_le32(out: &mut Vec<u8>, n: u32)
    ensures
        final(out)@ == old(out)@ + le32_bytes(n),
{
    out.push((n & 0xff) as u8);
    out.push(((n >> 8) & 0xff) as u8);
    out.push(((n >> 16) & 0xff) as u8);
    out.push(((n >> 24) & 0xff) as u8);
    proof {
        assert(out@ =~= old(out)@ + le32_bytes(n));
    }
}

/// Reads the 32-bit little-endian value at `pos`.
fn read_le32(buf: &[u8], pos: usize) -> (n: u32)
    requires
        pos + 4 <= buf@.len(),
    ensures
        n == le32_value(buf@.subrange(pos as int, pos as int + 4)),
{
    let n = (buf[pos] as u32) | ((buf[pos + 1] as u32) << 8) | ((buf[pos + 2] as u32) << 16) | ((
    buf[pos + 3] as u32) << 24);
    proof {
        assert(buf@.subrange(pos as int, pos as int + 4)[0] == buf@[pos as int]);
        assert(buf@.subrange(pos as int, pos as int + 4)[1] == buf@[pos as int + 1]);
        assert(buf@.subrange(pos as int, pos as int + 4)[2] == buf@[pos as int + 2]);
        assert(buf@.subrange(pos as int, pos as int + 4)[3] == buf@[pos as int + 3]);
    }
    n
}

/// Appends a copy of `b`.
fn push_bytes(out: &mut Vec<u8>, b: &Vec<u8>)
    ensures
        final(out)@ == old(out)@ + b@,
{
    let mut i: usize = 0;
    proof {
        assert(out@ =~= old(out)@ + b@.subrange(0, 0));
    }
    while i < b.len()
        invariant
            0 <= i <= b@.len(),
            out@ == old(out)@ + b@.subrange(0, i as int),
        decreases b@.len() - i,
    {
        out.push(b[i]);
        i += 1;
        proof {
            assert(out@ =~= old(out)@ + b@.subrange(0, i as int));
        }
    }
    proof {
        assert(out@ =~= old(out)@ + b@);
    }
}

// ---------------------------------------------------------------------------
// Element names and enum spellings
// ---------------------------------------------------------------------------
/// The wire name of the kind field, `type`, with its terminating zero.
pub open spec fn name_type() -> Seq<u8> {
    seq![0x74u8, 0x79, 0x70, 0x65, 0x00]
}

/// The wire name `path`, with its terminating zero.
pub open spec fn name_path() -> Seq<u8> {
    seq![0x70u8, 0x61, 0x74, 0x68, 0x00]
}

/// The wire name `headers`, with its terminating zero.
pub open spec fn name_headers() -> Seq<u8> {
    seq![0x68u8, 0x65, 0x61, 0x64, 0x65, 0x72, 0x73, 0x00]
}

/// The wire name `body`, with its terminating zero.
pub open spec fn name_body() -> Seq<u8> {
    seq![0x62u8, 0x6f, 0x64, 0x79, 0x00]
}

/// The wire name `status`, with its terminating zero.
pub open spec fn name_status() -> Seq<u8> {
    seq![0x73u8, 0x74, 0x61, 0x74, 0x75, 0x73, 0x00]
}

/// The spelling of each kind on the wire.
pub open spec fn kind_bytes(k: Type) -> Seq<u8> {
    match k {
        Type::Publish => seq![0x50u8, 0x75, 0x62, 0x6c, 0x69, 0x73, 0x68],
        Type::Subscribe => seq![0x53u8, 0x75, 0x62, 0x73, 0x63, 0x72, 0x69, 0x62, 0x65],
        Type::Unsubscribe => seq![
            0x55u8,
            0x6e,
            0x73,
            0x75,
            0x62,
            0x73,
            0x63,
            0x72,
            0x69,
            0x62,
            0x65,
        ],
        Type::Message => seq![0x4du8, 0x65, 0x73, 0x73, 0x61, 0x67, 0x65],
        Type::Generic => seq![0x47u8, 0x65, 0x6e, 0x65, 0x72, 0x69, 0x63],
    }
}

/// The kind a spelling denotes, if any.
pub open spec fn spec_kind_of(b: Seq<u8>) -> Option<Type> {
    if b == kind_bytes(Type::Publish) {
        Some(Type::Publish)
    } else if b == kind_bytes(Type::Subscribe) {
        Some(Type::Subscribe)
    } else if b == kind_bytes(Type::Unsubscribe) {
        Some(Type::Unsubscribe)
    } else if b == kind_bytes(Type::Message) {
        Some(Type::Message)
    } else if b == kind_bytes(Type::Generic) {
        Some(Type::Generic)
    } else {
        None
    }
}

/// The spelling of each status on the wire.
pub open spec fn status_bytes(s: Status) -> Seq<u8> {
    match s {
        Status::Okay => seq![0x4fu8, 0x6b],
        Status::Unparseable => seq![
            0x55u8,
            0x6e,
            0x70,
            0x61,
            0x72,
            0x73,
            0x65,
            0x61,
            0x62,
            0x6c,
            0x65,
        ],
        Status::BadRequest => seq![0x42u8, 0x61, 0x64, 0x52, 0x65, 0x71, 0x75, 0x65, 0x73, 0x74],
    }
}

/// The status a spelling denotes, if any.
pub open spec fn spec_status_of(b: Seq<u8>) -> Option<Status> {
    if b == status_bytes(Status::Okay) {
        Some(Status::Okay)
    } else if b == status_bytes(Status::Unparseable) {
        Some(Status::Unparseable)
    } else if b == status_bytes(Status::BadRequest) {
        Some(Status::BadRequest)
    } else {
        None
    }
}

/// Appends the spelling of `k`.
fn push_kind(out: &mut Vec<u8>, k: Type)
    ensures
        final(out)@ == old(out)@ + kind_bytes(k),
{
    match k {
        Type::Publish => {
            out.push(0x50);
            out.push(0x75);
            out.push(0x62);
            out.push(0x6c);
            out.push(0x69);
            out.push(0x73);
            out.push(0x68);
        },
        Type::Subscribe => {
            out.push(0x53);
            out.push(0x75);
            out.push(0x62);
            out.push(0x73);
            out.push(0x63);
            out.push(0x72);
            out.push(0x69);
            out.push(0x62);
            out.push(0x65);
        },
        Type::Unsubscribe => {
            out.push(0x55);
            out.push(0x6e);
            out.push(0x73);
            out.push(0x75);
            out.push(0x62);
            out.push(0x73);
            out.push(0x63);
            out.push(0x72);
            out.push(0x69);
            out.push(0x62);
            out.push(0x65);
        },
        Type::Message => {
            out.push(0x4d);
            out.push(0x65);
            out.push(0x73);
            out.push(0x73);
            out.push(0x61);
            out.push(0x67);
            out.push(0x65);
        },
        Type::Generic => {
            out.push(0x47);
            out.push(0x65);
            out.push(0x6e);
            out.push(0x65);
            out.push(0x72);
            out.push(0x69);
            out.push(0x63);
        },
    }
    proof {
        assert(out@ =~= old(out)@ + kind_bytes(k));
    }
}

/// Appends the spelling of `s`.
fn push_status(out: &mut Vec<u8>, s: Status)
    ensures
        final(out)@ == old(out)@ + status_bytes(s),
{
    match s {
        Status::Okay => {
            out.push(0x4f);
            out.push(0x6b);
        },
        Status::Unparseable => {
            out.push(0x55);
            out.push(0x6e);
            out.push(0x70);
            out.push(0x61);
            out.push(0x72);
            out.push(0x73);
            out.push(0x65);
            out.push(0x61);
            out.push(0x62);
            out.push(0x6c);
            out.push(0x65);
        },
        Status::BadRequest => {
            out.push(0x42);
            out.push(0x61);
            out.push(0x64);
            out.push(0x52);
            out.push(0x65);
            out.push(0x71);
            out.push(0x75);
            out.push(0x65);
            out.push(0x73);
            out.push(0x74);
        },
    }
    proof {
        assert(out@ =~= old(out)@ + status_bytes(s));
    }
}

/// Appends the decimal spelling of `n`.
pub open spec fn dec_bytes(n: nat) -> Seq<u8>
    decreases n,
{
    if n < 10 {
        seq![(0x30 + n) as u8]
    } else {
        dec_bytes((n / 10) as nat).push((0x30 + n % 10) as u8)
    }
}

fn push_dec(out: &mut Vec<u8>, n: u32)
    ensures
        final(out)@ == old(out)@ + dec_bytes(n as nat),
    decreases n,
{
    if n >= 10 {
        push_dec(out, n / 10);
    }
    out.push(0x30 + (n % 10) as u8);
    proof {
        assert(out@ =~= old(out)@ + dec_bytes(n as nat));
    }
}

// ---------------------------------------------------------------------------
// The encoding, stated
// ---------------------------------------------------------------------------
/// A length-prefixed string value: length including the terminating zero,
/// the bytes, the zero.
pub open spec fn spec_str_value(b: Seq<u8>) -> Seq<u8> {
    le32_bytes((b.len() + 1) as u32) + b + seq![0u8]
}

/// A document: total length including itself and the trailing zero.
pub open spec fn spec_doc(elements: Seq<u8>) -> Seq<u8> {
    le32_bytes((elements.len() + 5) as u32) + elements + seq![0u8]
}

/// A string element: tag, zero-terminated name, string value.
pub open spec fn el_string(name: Seq<u8>, b: Seq<u8>) -> Seq<u8> {
    seq![0x02u8] + name + spec_str_value(b)
}

/// An embedded-document element.
pub open spec fn el_doc(name: Seq<u8>, inner: Seq<u8>) -> Seq<u8> {
    seq![0x03u8] + name + spec_doc(inner)
}

/// An embedded-array element; an array is a document with index names.
pub open spec fn el_array(name: Seq<u8>, inner: Seq<u8>) -> Seq<u8> {
    seq![0x04u8] + name + spec_doc(inner)
}

/// A null element: tag and name only.
pub open spec fn el_null(name: Seq<u8>) -> Seq<u8> {
    seq![0x0au8] + name
}

/// A 32-bit integer element.
pub open spec fn el_int32(name: Seq<u8>, n: u32) -> Seq<u8> {
    seq![0x10u8] + name + le32_bytes(n)
}

/// The header map's elements: one string element per pair, in order.
pub open spec fn spec_header_elements(hs: Seq<(Seq<char>, Seq<char>)>) -> Seq<u8>
    decreases hs.len(),
{
    if hs.len() == 0 {
        Seq::empty()
    } else {
        el_string(encode_utf8(hs[0].0).push(0u8), encode_utf8(hs[0].1)) + spec_header_elements(
            hs.drop_first(),
        )
    }
}

/// The body array's elements: one 32-bit element per byte, named by its
/// decimal index.
pub open spec fn spec_body_items(b: Seq<u8>, idx: nat) -> Seq<u8>
    decreases b.len(),
{
    if b.len() == 0 {
        Seq::empty()
    } else {
        el_int32(dec_bytes(idx).push(0u8), b[0] as u32) + spec_body_items(b.drop_first(), idx + 1)
    }
}

/// The body element: null for an absent body, an array otherwise.
pub open spec fn spec_body_el(b: Option<Seq<u8>>) -> Seq<u8> {
    match b {
        None => el_null(name_body()),
        Some(bs) => el_array(name_body(), spec_body_items(bs, 0)),
    }
}

/// The elements of an encoded request: kind, path, headers, body.
pub open spec fn spec_request_elements(v: RequestView) -> Seq<u8> {
    el_string(name_type(), kind_bytes(v.kind)) + el_string(name_path(), encode_utf8(v.path))
        + el_doc(name_headers(), spec_header_elements(v.headers)) + spec_body_el(v.body)
}

/// The bytes a request encodes to.
pub open spec fn spec_encode_request(v: RequestView) -> Seq<u8> {
    spec_doc(spec_request_elements(v))
}

/// The path element of a response: a string, or null for an absent path.
pub open spec fn spec_path_el(p: Option<Seq<char>>) -> Seq<u8> {
    match p {
        Some(pc) => el_string(name_path(), encode_utf8(pc)),
        None => el_null(name_path()),
    }
}

/// The elements of an encoded response: kind, path, status, headers, body.
pub open spec fn spec_response_elements(v: ResponseView) -> Seq<u8> {
    el_string(name_type(), kind_bytes(v.kind)) + spec_path_el(v.path) + el_string(
        name_status(),
        status_bytes(v.status),
    ) + el_doc(name_headers(), spec_header_elements(v.headers)) + spec_body_el(v.body)
}

/// The bytes a response encodes to.
pub open spec fn spec_encode_response(v: ResponseView) -> Seq<u8> {
    spec_doc(spec_response_elements(v))
}

/// `b` holds no zero byte, so it can stand as a zero-terminated name.
pub open spec fn no_nul(b: Seq<u8>) -> bool {
    forall|i: int| 0 <= i < b.len() ==> b[i] != 0
}

/// Every header key can stand as a zero-terminated name.
pub open spec fn valid_header_keys(hs: Seq<(Seq<char>, Seq<char>)>) -> bool {
    forall|i: int| 0 <= i < hs.len() ==> no_nul(encode_utf8(hs[i].0))
}

/// A request the wire format can carry: header keys without zero bytes, and
/// a total size within the document limit.
pub open spec fn request_encodable(v: RequestView) -> bool {
    valid_header_keys(v.headers) && spec_request_elements(v).len() + 5
        <= MAX_DOCUMENT_LEN as int
}

/// A response the wire format can carry.
pub open spec fn response_encodable(v: ResponseView) -> bool {
    valid_header_keys(v.headers) && spec_response_elements(v).len() + 5
        <= MAX_DOCUMENT_LEN as int
}

// ---------------------------------------------------------------------------
// Encoding, executed
// ---------------------------------------------------------------------------
fn push_name_type(out: &mut Vec<u8>)
    ensures
        final(out)@ == old(out)@ + name_type(),
{
    out.push(0x74);
    out.push(0x79);
    out.push(0x70);
    out.push(0x65);
    out.push(0x00);
    proof {
        assert(out@ =~= old(out)@ + name_type());
    }
}

fn push_name_path(out: &mut Vec<u8>)
    ensures
        final(out)@ == old(out)@ + name_path(),
{
    out.push(0x70);
    out.push(0x61);
    out.push(0x74);
    out.push(0x68);
    out.push(0x00);
    proof {
        assert(out@ =~= old(out)@ + name_path());
    }
}

fn push_name_headers(out: &mut Vec<u8>)
    ensures
        final(out)@ == old(out)@ + name_headers(),
{
    out.push(0x68);
    out.push(0x65);
    out.push(0x61);
    out.push(0x64);
    out.push(0x65);
    out.push(0x72);
    out.push(0x73);
    out.push(0x00);
    proof {
        assert(out@ =~= old(out)@ + name_headers());
    }
}

fn push_name_body(out: &mut Vec<u8>)
    ensures
        final(out)@ == old(out)@ + name_body(),
{
    out.push(0x62);
    out.push(0x6f);
    out.push(0x64);
    out.push(0x79);
    out.push(0x00);
    proof {
        assert(out@ =~= old(out)@ + name_body());
    }
}

fn push_name_status(out: &mut Vec<u8>)
    ensures
        final(out)@ == old(out)@ + name_status(),
{
    out.push(0x73);
    out.push(0x74);
    out.push(0x61);
    out.push(0x74);
    out.push(0x75);
    out.push(0x73);
    out.push(0x00);
    proof {
        assert(out@ =~= old(out)@ + name_status());
    }
}

/// The spelling of `k`, as a vector.
fn kind_vec(k: Type) -> (v: Vec<u8>)
    ensures
        v@ == kind_bytes(k),
{
    let mut v: Vec<u8> = Vec::new();
    push_kind(&mut v, k);
    proof {
        assert(v@ =~= kind_bytes(k));
    }
    v
}

/// The spelling of `s`, as a vector.
fn status_vec(s: Status) -> (v: Vec<u8>)
    ensures
        v@ == status_bytes(s),
{
    let mut v: Vec<u8> = Vec::new();
    push_status(&mut v, s);
    proof {
        assert(v@ =~= status_bytes(s));
    }
    v
}

/// The UTF-8 bytes of `s`.
fn str_bytes(s: &String) -> (v: Vec<u8>)
    ensures
        v@ == encode_utf8(s@),
{
    vstd::string::StrSliceExecFns::as_bytes_vec(s.as_str())
}

/// Whether `b` is free of zero bytes.
fn no_nul_check(b: &Vec<u8>) -> (r: bool)
    ensures
        r == no_nul(b@),
{
    let mut i: usize = 0;
    while i < b.len()
        invariant
            0 <= i <= b@.len(),
            forall|j: int| 0 <= j < i ==> b@[j] != 0,
        decreases b@.len() - i,
    {
        if b[i] == 0 {
            return false;
        }
        i += 1;
    }
    true
}

/// Appends a length-prefixed string value.
fn push_str_value(out: &mut Vec<u8>, b: &Vec<u8>)
    requires
        b@.len() + 1 <= MAX_DOCUMENT_LEN,
    ensures
        final(out)@ == old(out)@ + spec_str_value(b@),
{
    push_le32(out, (b.len() + 1) as u32);
    push_bytes(out, b);
    out.push(0);
    proof {
        assert(out@ =~= old(out)@ + spec_str_value(b@));
    }
}

proof fn lemma_header_elements_concat(a: Seq<(Seq<char>, Seq<char>)>, b: Seq<(Seq<char>, Seq<char>)>)
    ensures
        spec_header_elements(a + b) == spec_header_elements(a) + spec_header_elements(b),
    decreases a.len(),
{
    if a.len() == 0 {
        assert(a + b =~= b);
        assert(spec_header_elements(a) + spec_header_elements(b) =~= spec_header_elements(b));
    } else {
        assert((a + b)[0] == a[0]);
        assert((a + b).drop_first() =~= a.drop_first() + b);
        lemma_header_elements_concat(a.drop_first(), b);
        let el = el_string(encode_utf8(a[0].0).push(0u8), encode_utf8(a[0].1));
        assert((el + spec_header_elements(a.drop_first())) + spec_header_elements(b) =~= el + (
        spec_header_elements(a.drop_first()) + spec_header_elements(b)));
    }
}

proof fn lemma_body_items_concat(a: Seq<u8>, b: Seq<u8>, idx: nat)
    ensures
        spec_body_items(a + b, idx) == spec_body_items(a, idx) + spec_body_items(
            b,
            (idx + a.len()) as nat,
        ),
    decreases a.len(),
{
    if a.len() == 0 {
        assert(a + b =~= b);
        assert(spec_body_items(a, idx) + spec_body_items(b, idx) =~= spec_body_items(b, idx));
    } else {
        assert((a + b)[0] == a[0]);
        assert((a + b).drop_first() =~= a.drop_first() + b);
        lemma_body_items_concat(a.drop_first(), b, (idx + 1) as nat);
        let el = el_int32(dec_bytes(idx).push(0u8), a[0] as u32);
        assert((el + spec_body_items(a.drop_first(), (idx + 1) as nat)) + spec_body_items(
            b,
            (idx + a.len()) as nat,
        ) =~= el + (spec_body_items(a.drop_first(), (idx + 1) as nat) + spec_body_items(
            b,
            (idx + a.len()) as nat,
        )));
    }
}

proof fn lemma_header_elements_len_ge(hs: Seq<(Seq<char>, Seq<char>)>, i: int)
    requires
        0 <= i < hs.len(),
    ensures
        spec_header_elements(hs).len() >= encode_utf8(hs[i].0).len() + encode_utf8(hs[i].1).len()
            + 7,
    decreases hs.len(),
{
    if i > 0 {
        lemma_header_elements_len_ge(hs.drop_first(), i - 1);
        assert(hs.drop_first()[i - 1] == hs[i]);
    }
}

proof fn lemma_body_items_len_ge(b: Seq<u8>, idx: nat)
    ensures
        spec_body_items(b, idx).len() >= b.len(),
    decreases b.len(),
{
    if b.len() > 0 {
        lemma_body_items_len_ge(b.drop_first(), (idx + 1) as nat);
    }
}

/// Builds the header map's elements; refuses a key holding a zero byte, or
/// a value too long for its length prefix.
fn build_header_elements(headers: &Vec<(String, String)>) -> (r: Option<Vec<u8>>)
    ensures
        match r {
            Some(h) => h@ == spec_header_elements(headers_view(*headers)) && valid_header_keys(
                headers_view(*headers),
            ),
            None => !valid_header_keys(headers_view(*headers)) || spec_header_elements(
                headers_view(*headers),
            ).len() + 5 > MAX_DOCUMENT_LEN as int,
        },
{
    let ghost hv = headers_view(*headers);
    let mut out: Vec<u8> = Vec::new();
    let mut i: usize = 0;
    proof {
        assert(hv.take(0) =~= Seq::<(Seq<char>, Seq<char>)>::empty());
        assert(out@ =~= spec_header_elements(hv.take(0)));
    }
    while i < headers.len()
        invariant
            0 <= i <= headers@.len(),
            hv == headers_view(*headers),
            hv.len() == headers@.len(),
            out@ == spec_header_elements(hv.take(i as int)),
            forall|k: int| 0 <= k < i ==> no_nul(encode_utf8(hv[k].0)),
        decreases headers@.len() - i,
    {
        let kb = str_bytes(&headers[i].0);
        proof {
            assert(hv[i as int] == (headers@[i as int].0@, headers@[i as int].1@));
        }
        if !no_nul_check(&kb) {
            return None;
        }
        let vb = str_bytes(&headers[i].1);
        if vb.len() >= MAX_DOCUMENT_LEN {
            proof {
                lemma_header_elements_len_ge(hv, i as int);
            }
            return None;
        }
        let ghost out0 = out@;
        out.push(0x02);
        push_bytes(&mut out, &kb);
        out.push(0x00);
        push_str_value(&mut out, &vb);
        proof {
            let el = el_string(encode_utf8(hv[i as int].0).push(0u8), encode_utf8(hv[i as int].1));
            assert(encode_utf8(hv[i as int].0).push(0u8) =~= kb@ + seq![0u8]);
            assert(out@ =~= out0 + el);
            assert(hv.take(i as int + 1) =~= hv.take(i as int) + seq![hv[i as int]]);
            lemma_header_elements_concat(hv.take(i as int), seq![hv[i as int]]);
            reveal_with_fuel(spec_header_elements, 2);
            assert(seq![hv[i as int]].drop_first() =~= Seq::<(Seq<char>, Seq<char>)>::empty());
            assert(spec_header_elements(seq![hv[i as int]]) =~= el);
            assert(out@ =~= spec_header_elements(hv.take(i as int + 1)));
        }
        i += 1;
    }
    proof {
        assert(hv.take(hv.len() as int) =~= hv);
    }
    Some(out)
}

/// Builds the body array's elements.
fn build_body_items(body: &Vec<u8>) -> (r: Option<Vec<u8>>)
    ensures
        match r {
            Some(items) => items@ == spec_body_items(body@, 0),
            None => spec_body_items(body@, 0).len() + 5 > MAX_DOCUMENT_LEN as int,
        },
{
    if body.len() >= MAX_DOCUMENT_LEN {
        proof {
            lemma_body_items_len_ge(body@, 0);
        }
        return None;
    }
    let mut out: Vec<u8> = Vec::new();
    let mut i: usize = 0;
    proof {
        assert(body@.take(0) =~= Seq::<u8>::empty());
        assert(out@ =~= spec_body_items(body@.take(0), 0));
    }
    while i < body.len()
        invariant
            0 <= i <= body@.len(),
            body@.len() < MAX_DOCUMENT_LEN,
            out@ == spec_body_items(body@.take(i as int), 0),
        decreases body@.len() - i,
    {
        let ghost out0 = out@;
        out.push(0x10);
        push_dec(&mut out, i as u32);
        out.push(0x00);
        push_le32(&mut out, body[i] as u32);
        proof {
            let el = el_int32(dec_bytes(i as nat).push(0u8), body@[i as int] as u32);
            assert(dec_bytes(i as nat).push(0u8) =~= dec_bytes(i as nat) + seq![0u8]);
            assert(out@ =~= out0 + el);
            assert(body@.take(i as int + 1) =~= body@.take(i as int) + seq![body@[i as int]]);
            lemma_body_items_concat(body@.take(i as int), seq![body@[i as int]], 0);
            reveal_with_fuel(spec_body_items, 2);
            assert(seq![body@[i as int]].drop_first() =~= Seq::<u8>::empty());
            assert(spec_body_items(seq![body@[i as int]], i as nat) =~= el);
            assert(out@ =~= spec_body_items(body@.take(i as int + 1), 0));
        }
        i += 1;
    }
    proof {
        assert(body@.take(body@.len() as int) =~= body@);
    }
    Some(out)
}

/// Appends the header map element, or refuses without touching `els`.
fn push_headers_el(els: &mut Vec<u8>, headers: &Vec<(String, String)>) -> (ok: bool)
    ensures
        ok ==> final(els)@ == old(els)@ + el_doc(
            name_headers(),
            spec_header_elements(headers_view(*headers)),
        ) && valid_header_keys(headers_view(*headers)),
        !ok ==> *final(els) == *old(els) && (!valid_header_keys(headers_view(*headers))
            || spec_header_elements(headers_view(*headers)).len() + 5 > MAX_DOCUMENT_LEN as int),
{
    let hels = match build_header_elements(headers) {
        Some(h) => h,
        None => {
            return false;
        },
    };
    if hels.len() > MAX_DOCUMENT_LEN - 5 {
        return false;
    }
    els.push(0x03);
    push_name_headers(els);
    push_le32(els, (hels.len() + 5) as u32);
    push_bytes(els, &hels);
    els.push(0x00);
    proof {
        assert(els@ =~= old(els)@ + el_doc(
            name_headers(),
            spec_header_elements(headers_view(*headers)),
        ));
    }
    true
}

/// Appends the body element, or refuses without touching `els`.
fn push_body_el(els: &mut Vec<u8>, body: &Option<Vec<u8>>) -> (ok: bool)
    ensures
        ok ==> final(els)@ == old(els)@ + spec_body_el(opt_bytes_view(*body)),
        !ok ==> *final(els) == *old(els) && spec_body_el(opt_bytes_view(*body)).len()
            > MAX_DOCUMENT_LEN as int,
{
    match body {
        None => {
            els.push(0x0a);
            push_name_body(els);
            proof {
                assert(els@ =~= old(els)@ + spec_body_el(opt_bytes_view(*body)));
            }
            true
        },
        Some(b) => {
            let items = match build_body_items(b) {
                Some(x) => x,
                None => {
                    return false;
                },
            };
            if items.len() > MAX_DOCUMENT_LEN - 5 {
                return false;
            }
            els.push(0x04);
            push_name_body(els);
            push_le32(els, (items.len() + 5) as u32);
            push_bytes(els, &items);
            els.push(0x00);
            proof {
                assert(els@ =~= old(els)@ + spec_body_el(opt_bytes_view(*body)));
            }
            true
        },
    }
}

/// Encodes a request. Returns the document bytes, or nothing for a request
/// the wire format cannot carry: a header key holding a zero byte, or a
/// total size beyond the document limit.
#[verifier::rlimit(100)]
pub fn encode_request(request: &Request) -> (r: Option<Vec<u8>>)
    ensures
        match r {
            Some(out) => request_encodable(request@) && out@ == spec_encode_request(request@),
            None => !request_encodable(request@),
        },
{
    let ghost v = request@;
    let mut els: Vec<u8> = Vec::new();
    els.push(0x02);
    push_name_type(&mut els);
    let kb = kind_vec(request.kind);
    assert(kb@.len() <= 11);
    push_str_value(&mut els, &kb);
    let ghost el_a = el_string(name_type(), kind_bytes(v.kind));
    proof {
        assert(els@ =~= el_a);
    }
    let pb = str_bytes(&request.path);
    if pb.len() >= MAX_DOCUMENT_LEN {
        return None;
    }
    els.push(0x02);
    push_name_path(&mut els);
    push_str_value(&mut els, &pb);
    let ghost el_b = el_string(name_path(), encode_utf8(v.path));
    proof {
        assert(els@ =~= el_a + el_b);
    }
    if !push_headers_el(&mut els, &request.headers) {
        return None;
    }
    let ghost el_c = el_doc(name_headers(), spec_header_elements(v.headers));
    if !push_body_el(&mut els, &request.body) {
        return None;
    }
    proof {
        assert(els@ =~= spec_request_elements(v));
    }
    if els.len() > MAX_DOCUMENT_LEN - 5 {
        return None;
    }
    let mut out: Vec<u8> = Vec::new();
    push_le32(&mut out, (els.len() + 5) as u32);
    push_bytes(&mut out, &els);
    out.push(0x00);
    proof {
        assert(out@ =~= spec_encode_request(v));
    }
    Some(out)
}

/// Encodes a response, under the same limits as a request.
#[verifier::rlimit(100)]
pub fn encode_response(response: &Response) -> (r: Option<Vec<u8>>)
    ensures
        match r {
            Some(out) => response_encodable(response@) && out@ == spec_encode_response(response@),
            None => !response_encodable(response@),
        },
{
    let ghost v = response@;
    let mut els: Vec<u8> = Vec::new();
    els.push(0x02);
    push_name_type(&mut els);
    let kb = kind_vec(response.kind);
    assert(kb@.len() <= 11);
    push_str_value(&mut els, &kb);
    let ghost el_a = el_string(name_type(), kind_bytes(v.kind));
    proof {
        assert(els@ =~= el_a);
    }
    match &response.path {
        None => {
            els.push(0x0a);
            push_name_path(&mut els);
        },
        Some(p) => {
            let pb = str_bytes(p);
            if pb.len() >= MAX_DOCUMENT_LEN {
                return None;
            }
            els.push(0x02);
            push_name_path(&mut els);
            push_str_value(&mut els, &pb);
        },
    }
    let ghost el_b = spec_path_el(v.path);
    proof {
        assert(els@ =~= el_a + el_b);
    }
    els.push(0x02);
    push_name_status(&mut els);
    let sb = status_vec(response.status);
    assert(sb@.len() <= 11);
    push_str_value(&mut els, &sb);
    let ghost el_s = el_string(name_status(), status_bytes(v.status));
    proof {
        assert(els@ =~= el_a + el_b + el_s);
    }
    if !push_headers_el(&mut els, &response.headers) {
        return None;
    }
    let ghost el_c = el_doc(name_headers(), spec_header_elements(v.headers));
    if !push_body_el(&mut els, &response.body) {
        return None;
    }
    proof {
        assert(els@ =~= spec_response_elements(v));
    }
    if els.len() > MAX_DOCUMENT_LEN - 5 {
        return None;
    }
    let mut out: Vec<u8> = Vec::new();
    push_le32(&mut out, (els.len() + 5) as u32);
    push_bytes(&mut out, &els);
    out.push(0x00);
    proof {
        assert(out@ =~= spec_encode_response(v));
    }
    Some(out)
}

// ---------------------------------------------------------------------------
// The decoding, stated
// ---------------------------------------------------------------------------
/// Consumes `name` from the front, or refuses.
pub open spec fn spec_parse_name(b: Seq<u8>, name: Seq<u8>) -> Option<Seq<u8>> {
    if b.len() >= name.len() && b.subrange(0, name.len() as int) == name {
        Some(b.skip(name.len() as int))
    } else {
        None
    }
}

/// Consumes a tag byte and a name.
pub open spec fn spec_parse_tag_name(b: Seq<u8>, tag: u8, name: Seq<u8>) -> Option<Seq<u8>> {
    if b.len() >= 1 && b[0] == tag {
        spec_parse_name(b.skip(1), name)
    } else {
        None
    }
}

/// Consumes a length-prefixed string value: the value bytes and the rest.
pub open spec fn spec_parse_str_value(b: Seq<u8>) -> Option<(Seq<u8>, Seq<u8>)> {
    if b.len() >= 4 {
        let n = le32_value(b.subrange(0, 4)) as int;
        if 1 <= n && n <= MAX_DOCUMENT_LEN as int && 4 + n <= b.len() && b[4 + n - 1] == 0 {
            Some((b.subrange(4, 4 + n - 1), b.skip(4 + n)))
        } else {
            None
        }
    } else {
        None
    }
}

/// Consumes a string element with the given name.
pub open spec fn spec_parse_string_el(b: Seq<u8>, name: Seq<u8>) -> Option<(Seq<u8>, Seq<u8>)> {
    match spec_parse_tag_name(b, 0x02, name) {
        Some(rest) => spec_parse_str_value(rest),
        None => None,
    }
}

/// Consumes an embedded document: its element bytes and the rest.
pub open spec fn spec_parse_doc(b: Seq<u8>) -> Option<(Seq<u8>, Seq<u8>)> {
    if b.len() >= 4 {
        let n = le32_value(b.subrange(0, 4)) as int;
        if 5 <= n && n <= MAX_DOCUMENT_LEN as int && n <= b.len() && b[n - 1] == 0 {
            Some((b.subrange(4, n - 1), b.skip(n)))
        } else {
            None
        }
    } else {
        None
    }
}

/// Consumes a zero-terminated name of unknown spelling.
pub open spec fn spec_parse_cstring(b: Seq<u8>) -> Option<(Seq<u8>, Seq<u8>)>
    decreases b.len(),
{
    if b.len() == 0 {
        None
    } else if b[0] == 0 {
        Some((Seq::empty(), b.skip(1)))
    } else {
        match spec_parse_cstring(b.skip(1)) {
            Some(p) => Some((seq![b[0]] + p.0, p.1)),
            None => None,
        }
    }
}

pub proof fn lemma_parse_cstring_len(b: Seq<u8>)
    ensures
        spec_parse_cstring(b) matches Some(p) ==> p.1.len() < b.len() && p.0.len() + 1 + p.1.len()
            == b.len(),
    decreases b.len(),
{
    if b.len() > 0 && b[0] != 0 {
        lemma_parse_cstring_len(b.skip(1));
    }
}

/// Consumes the whole header document: string elements with free names,
/// keys and values in UTF-8.
pub open spec fn spec_parse_headers(b: Seq<u8>) -> Option<Seq<(Seq<char>, Seq<char>)>>
    decreases b.len(),
    via spec_parse_headers_dec
{
    if b.len() == 0 {
        Some(Seq::empty())
    } else if b[0] == 0x02 {
        match spec_parse_cstring(b.skip(1)) {
            Some(kp) => match spec_parse_str_value(kp.1) {
                Some(vp) => if valid_utf8(kp.0) && valid_utf8(vp.0) {
                    match spec_parse_headers(vp.1) {
                        Some(rest) => Some(
                            seq![(decode_utf8(kp.0), decode_utf8(vp.0))] + rest,
                        ),
                        None => None,
                    }
                } else {
                    None
                },
                None => None,
            },
            None => None,
        }
    } else {
        None
    }
}

#[via_fn]
proof fn spec_parse_headers_dec(b: Seq<u8>) {
    lemma_parse_cstring_len(b.skip(1));
}

/// Consumes the whole body array document: 32-bit elements named by their
/// decimal index, each value a byte.
pub open spec fn spec_parse_items(b: Seq<u8>, idx: nat) -> Option<Seq<u8>>
    decreases b.len(),
{
    if b.len() == 0 {
        Some(Seq::empty())
    } else {
        match spec_parse_tag_name(b, 0x10, dec_bytes(idx).push(0u8)) {
            Some(r1) => if r1.len() >= 4 {
                let n = le32_value(r1.subrange(0, 4));
                if n < 256 {
                    match spec_parse_items(r1.skip(4), (idx + 1) as nat) {
                        Some(rest) => Some(seq![n as u8] + rest),
                        None => None,
                    }
                } else {
                    None
                }
            } else {
                None
            },
            None => None,
        }
    }
}

/// Consumes the body element: null, or an array document.
pub open spec fn spec_parse_body_el(b: Seq<u8>) -> Option<(Option<Seq<u8>>, Seq<u8>)> {
    if b.len() >= 1 && b[0] == 0x0a {
        match spec_parse_name(b.skip(1), name_body()) {
            Some(r) => Some((None, r)),
            None => None,
        }
    } else {
        match spec_parse_tag_name(b, 0x04, name_body()) {
            Some(r) => match spec_parse_doc(r) {
                Some(d) => match spec_parse_items(d.0, 0) {
                    Some(items) => Some((Some(items), d.1)),
                    None => None,
                },
                None => None,
            },
            None => None,
        }
    }
}

/// Consumes the path element of a response: a string, or null.
pub open spec fn spec_parse_opt_path_el(b: Seq<u8>) -> Option<(Option<Seq<u8>>, Seq<u8>)> {
    if b.len() >= 1 && b[0] == 0x0a {
        match spec_parse_name(b.skip(1), name_path()) {
            Some(r) => Some((None, r)),
            None => None,
        }
    } else {
        match spec_parse_string_el(b, name_path()) {
            Some(p) => Some((Some(p.0), p.1)),
            None => None,
        }
    }
}

/// Consumes an embedded document element with the given name.
pub open spec fn spec_parse_doc_el(b: Seq<u8>, name: Seq<u8>) -> Option<(Seq<u8>, Seq<u8>)> {
    match spec_parse_tag_name(b, 0x03, name) {
        Some(r) => spec_parse_doc(r),
        None => None,
    }
}

/// Decodes the element run of a request document.
pub open spec fn spec_decode_request_els(els: Seq<u8>) -> Option<RequestView> {
    match spec_parse_string_el(els, name_type()) {
        Some(kp) => match spec_kind_of(kp.0) {
            Some(kind) => match spec_parse_string_el(kp.1, name_path()) {
                Some(pp) => if valid_utf8(pp.0) {
                    match spec_parse_doc_el(pp.1, name_headers()) {
                        Some(hp) => match spec_parse_headers(hp.0) {
                            Some(hs) => match spec_parse_body_el(hp.1) {
                                Some(bp) => if bp.1.len() == 0 {
                                    Some(
                                        RequestView {
                                            kind,
                                            path: decode_utf8(pp.0),
                                            headers: hs,
                                            body: bp.0,
                                        },
                                    )
                                } else {
                                    None
                                },
                                None => None,
                            },
                            None => None,
                        },
                        None => None,
                    }
                } else {
                    None
                },
                None => None,
            },
            None => None,
        },
        None => None,
    }
}

/// The requests the wire accepts: exactly the well-formed documents, and
/// what each decodes to.
pub open spec fn spec_decode_request(b: Seq<u8>) -> Option<RequestView> {
    if b.len() >= 5 && b.len() <= MAX_DOCUMENT_LEN as int && le32_value(b.subrange(0, 4)) as int
        == b.len() && b[b.len() - 1] == 0 {
        spec_decode_request_els(b.subrange(4, b.len() - 1))
    } else {
        None
    }
}

/// Decodes the element run of a response document.
pub open spec fn spec_decode_response_els(els: Seq<u8>) -> Option<ResponseView> {
    match spec_parse_string_el(els, name_type()) {
        Some(kp) => match spec_kind_of(kp.0) {
            Some(kind) => match spec_parse_opt_path_el(kp.1) {
                Some(pp) => if (pp.0 matches Some(pb) ==> valid_utf8(pb)) {
                    match spec_parse_string_el(pp.1, name_status()) {
                        Some(sp) => match spec_status_of(sp.0) {
                            Some(status) => match spec_parse_doc_el(sp.1, name_headers()) {
                                Some(hp) => match spec_parse_headers(hp.0) {
                                    Some(hs) => match spec_parse_body_el(hp.1) {
                                        Some(bp) => if bp.1.len() == 0 {
                                            Some(
                                                ResponseView {
                                                    kind,
                                                    path: match pp.0 {
                                                        Some(pb) => Some(decode_utf8(pb)),
                                                        None => None,
                                                    },
                                                    status,
                                                    headers: hs,
                                                    body: bp.0,
                                                },
                                            )
                                        } else {
                                            None
                                        },
                                        None => None,
                                    },
                                    None => None,
                                },
                                None => None,
                            },
                            None => None,
                        },
                        None => None,
                    }
                } else {
                    None
                },
                None => None,
            },
            None => None,
        },
        None => None,
    }
}

/// The responses the wire accepts, and what each decodes to.
pub open spec fn spec_decode_response(b: Seq<u8>) -> Option<ResponseView> {
    if b.len() >= 5 && b.len() <= MAX_DOCUMENT_LEN as int && le32_value(b.subrange(0, 4)) as int
        == b.len() && b[b.len() - 1] == 0 {
        spec_decode_response_els(b.subrange(4, b.len() - 1))
    } else {
        None
    }
}

// ---------------------------------------------------------------------------
// Decoding, executed
// ---------------------------------------------------------------------------
/// Relies on String::from_utf8: it succeeds exactly on valid UTF-8 input,
/// and the returned string's UTF-8 bytes are the input bytes.
#[verifier::external_body]
fn bytes_to_string(v: Vec<u8>) -> (r: Option<String>)
    ensures
        r is Some <==> valid_utf8(v@),
        r matches Some(s) ==> encode_utf8(s@) == v@,
{
    String::from_utf8(v).ok()
}

/// Copies `buf[from..to]`.
fn copy_range(buf: &[u8], from: usize, to: usize) -> (v: Vec<u8>)
    requires
        from <= to <= buf@.len(),
    ensures
        v@ == buf@.subrange(from as int, to as int),
{
    let mut v: Vec<u8> = Vec::new();
    let mut i: usize = from;
    proof {
        assert(v@ =~= buf@.subrange(from as int, from as int));
    }
    while i < to
        invariant
            from <= i <= to <= buf@.len(),
            v@ == buf@.subrange(from as int, i as int),
        decreases to - i,
    {
        v.push(buf[i]);
        i += 1;
        proof {
            assert(v@ =~= buf@.subrange(from as int, i as int));
        }
    }
    v
}

/// Whether two byte vectors hold the same bytes.
fn bytes_eq(a: &Vec<u8>, b: &Vec<u8>) -> (r: bool)
    ensures
        r == (a@ == b@),
{
    if a.len() != b.len() {
        return false;
    }
    let mut i: usize = 0;
    while i < a.len()
        invariant
            a@.len() == b@.len(),
            0 <= i <= a@.len(),
            forall|j: int| 0 <= j < i ==> a@[j] == b@[j],
        decreases a@.len() - i,
    {
        if a[i] != b[i] {
            return false;
        }
        i += 1;
    }
    proof {
        assert(a@ =~= b@);
    }
    true
}

/// The kind a spelling denotes.
fn kind_of(b: &Vec<u8>) -> (r: Option<Type>)
    ensures
        r == spec_kind_of(b@),
{
    if bytes_eq(b, &kind_vec(Type::Publish)) {
        Some(Type::Publish)
    } else if bytes_eq(b, &kind_vec(Type::Subscribe)) {
        Some(Type::Subscribe)
    } else if bytes_eq(b, &kind_vec(Type::Unsubscribe)) {
        Some(Type::Unsubscribe)
    } else if bytes_eq(b, &kind_vec(Type::Message)) {
        Some(Type::Message)
    } else if bytes_eq(b, &kind_vec(Type::Generic)) {
        Some(Type::Generic)
    } else {
        None
    }
}

/// The status a spelling denotes.
fn status_of(b: &Vec<u8>) -> (r: Option<Status>)
    ensures
        r == spec_status_of(b@),
{
    if bytes_eq(b, &status_vec(Status::Okay)) {
        Some(Status::Okay)
    } else if bytes_eq(b, &status_vec(Status::Unparseable)) {
        Some(Status::Unparseable)
    } else if bytes_eq(b, &status_vec(Status::BadRequest)) {
        Some(Status::BadRequest)
    } else {
        None
    }
}

/// Consumes a tag byte and a name in `buf[pos..end)`.
fn parse_tag_name(buf: &[u8], pos: usize, end: usize, tag: u8, name: &Vec<u8>) -> (r: Option<
    usize,
>)
    requires
        pos <= end <= buf@.len(),
    ensures
        match r {
            Some(p2) => pos < p2 <= end && spec_parse_tag_name(
                buf@.subrange(pos as int, end as int),
                tag,
                name@,
            ) == Some(buf@.subrange(p2 as int, end as int)),
            None => spec_parse_tag_name(buf@.subrange(pos as int, end as int), tag, name@)
                is None,
        },
{
    let ghost b = buf@.subrange(pos as int, end as int);
    if pos == end {
        return None;
    }
    if buf[pos] != tag {
        proof {
            assert(b[0] == buf@[pos as int]);
        }
        return None;
    }
    proof {
        assert(b[0] == buf@[pos as int]);
        assert(b.skip(1) =~= buf@.subrange(pos as int + 1, end as int));
    }
    if end - (pos + 1) < name.len() {
        return None;
    }
    let mut k: usize = 0;
    while k < name.len()
        invariant
            pos + 1 + name@.len() <= end <= buf@.len(),
            b == buf@.subrange(pos as int, end as int),
            0 <= k <= name@.len(),
            forall|j: int| 0 <= j < k ==> buf@[pos as int + 1 + j] == name@[j],
        decreases name@.len() - k,
    {
        if buf[pos + 1 + k] != name[k] {
            proof {
                assert(b.skip(1).subrange(0, name@.len() as int)[k as int] == buf@[pos as int + 1
                    + k as int]);
            }
            return None;
        }
        k += 1;
    }
    proof {
        assert(b.skip(1).subrange(0, name@.len() as int) =~= name@);
        assert(b.skip(1).skip(name@.len() as int) =~= buf@.subrange(
            pos as int + 1 + name@.len() as int,
            end as int,
        ));
    }
    Some(pos + 1 + name.len())
}

/// Consumes a length-prefixed string value in `buf[pos..end)`.
fn parse_str_value(buf: &[u8], pos: usize, end: usize) -> (r: Option<(Vec<u8>, usize)>)
    requires
        pos <= end <= buf@.len(),
    ensures
        match r {
            Some(v) => pos < v.1 <= end && spec_parse_str_value(
                buf@.subrange(pos as int, end as int),
            ) == Some((v.0@, buf@.subrange(v.1 as int, end as int))),
            None => spec_parse_str_value(buf@.subrange(pos as int, end as int)) is None,
        },
{
    let ghost b = buf@.subrange(pos as int, end as int);
    if end - pos < 4 {
        return None;
    }
    let n32 = read_le32(buf, pos);
    proof {
        assert(b.subrange(0, 4) =~= buf@.subrange(pos as int, pos as int + 4));
    }
    if n32 < 1 {
        return None;
    }
    let n = n32 as usize;
    if n > MAX_DOCUMENT_LEN {
        return None;
    }
    if n > end - pos - 4 {
        return None;
    }
    if buf[pos + 4 + n - 1] != 0 {
        proof {
            assert(b[4 + n as int - 1] == buf@[pos as int + 4 + n as int - 1]);
        }
        return None;
    }
    let v = copy_range(buf, pos + 4, pos + 4 + n - 1);
    proof {
        assert(b[4 + n as int - 1] == buf@[pos as int + 4 + n as int - 1]);
        assert(v@ =~= b.subrange(4, 4 + n as int - 1));
        assert(b.skip(4 + n as int) =~= buf@.subrange(pos as int + 4 + n as int, end as int));
    }
    Some((v, pos + 4 + n))
}

/// Consumes a string element with the given name in `buf[pos..end)`.
fn parse_string_el(buf: &[u8], pos: usize, end: usize, name: &Vec<u8>) -> (r: Option<(
    Vec<u8>,
    usize,
)>)
    requires
        pos <= end <= buf@.len(),
    ensures
        match r {
            Some(v) => pos < v.1 <= end && spec_parse_string_el(
                buf@.subrange(pos as int, end as int),
                name@,
            ) == Some((v.0@, buf@.subrange(v.1 as int, end as int))),
            None => spec_parse_string_el(buf@.subrange(pos as int, end as int), name@) is None,
        },
{
    match parse_tag_name(buf, pos, end, 0x02, name) {
        Some(p1) => parse_str_value(buf, p1, end),
        None => None,
    }
}

/// Consumes an embedded document in `buf[pos..end)`: returns the end of its
/// element run (which starts at `pos + 4`) and the position after the
/// document.
fn parse_doc(buf: &[u8], pos: usize, end: usize) -> (r: Option<(usize, usize)>)
    requires
        pos <= end <= buf@.len(),
    ensures
        match r {
            Some(v) => pos + 4 <= v.0 < v.1 <= end && spec_parse_doc(
                buf@.subrange(pos as int, end as int),
            ) == Some(
                (
                    buf@.subrange(pos as int + 4, v.0 as int),
                    buf@.subrange(v.1 as int, end as int),
                ),
            ),
            None => spec_parse_doc(buf@.subrange(pos as int, end as int)) is None,
        },
{
    let ghost b = buf@.subrange(pos as int, end as int);
    if end - pos < 4 {
        return None;
    }
    let n32 = read_le32(buf, pos);
    proof {
        assert(b.subrange(0, 4) =~= buf@.subrange(pos as int, pos as int + 4));
    }
    if n32 < 5 {
        return None;
    }
    let n = n32 as usize;
    if n > MAX_DOCUMENT_LEN {
        return None;
    }
    if n > end - pos {
        return None;
    }
    if buf[pos + n - 1] != 0 {
        proof {
            assert(b[n as int - 1] == buf@[pos as int + n as int - 1]);
        }
        return None;
    }
    proof {
        assert(b[n as int - 1] == buf@[pos as int + n as int - 1]);
        assert(b.subrange(4, n as int - 1) =~= buf@.subrange(
            pos as int + 4,
            pos as int + n as int - 1,
        ));
        assert(b.skip(n as int) =~= buf@.subrange(pos as int + n as int, end as int));
    }
    Some((pos + n - 1, pos + n))
}

proof fn lemma_parse_cstring_found(b: Seq<u8>, z: int)
    requires
        0 <= z < b.len(),
        b[z] == 0,
        forall|j: int| 0 <= j < z ==> b[j] != 0,
    ensures
        spec_parse_cstring(b) == Some((b.subrange(0, z), b.skip(z + 1))),
    decreases z,
{
    if z == 0 {
        assert(b.subrange(0, 0) =~= Seq::<u8>::empty());
    } else {
        lemma_parse_cstring_found(b.skip(1), z - 1);
        assert(seq![b[0]] + b.skip(1).subrange(0, z - 1) =~= b.subrange(0, z));
        assert(b.skip(1).skip(z) =~= b.skip(z + 1));
    }
}

proof fn lemma_parse_cstring_none(b: Seq<u8>)
    requires
        forall|j: int| 0 <= j < b.len() ==> b[j] != 0,
    ensures
        spec_parse_cstring(b) is None,
    decreases b.len(),
{
    if b.len() > 0 {
        lemma_parse_cstring_none(b.skip(1));
    }
}

/// Consumes a zero-terminated name in `buf[pos..end)`.
fn parse_cstring(buf: &[u8], pos: usize, end: usize) -> (r: Option<(Vec<u8>, usize)>)
    requires
        pos <= end <= buf@.len(),
    ensures
        match r {
            Some(v) => pos < v.1 <= end && spec_parse_cstring(
                buf@.subrange(pos as int, end as int),
            ) == Some((v.0@, buf@.subrange(v.1 as int, end as int))),
            None => spec_parse_cstring(buf@.subrange(pos as int, end as int)) is None,
        },
{
    let ghost b = buf@.subrange(pos as int, end as int);
    let mut i: usize = pos;
    while i < end
        invariant
            pos <= i <= end <= buf@.len(),
            b == buf@.subrange(pos as int, end as int),
            forall|j: int| pos <= j < i ==> buf@[j] != 0,
        decreases end - i,
    {
        if buf[i] == 0 {
            let v = copy_range(buf, pos, i);
            proof {
                lemma_parse_cstring_found(b, i - pos);
                assert(v@ =~= b.subrange(0, i - pos));
                assert(b.skip(i - pos + 1) =~= buf@.subrange(i as int + 1, end as int));
            }
            return Some((v, i + 1));
        }
        i += 1;
    }
    proof {
        lemma_parse_cstring_none(b);
    }
    None
}

/// Consumes the whole header document in `buf[pos..end)`.
fn parse_headers(buf: &[u8], pos: usize, end: usize) -> (r: Option<Vec<(String, String)>>)
    requires
        pos <= end <= buf@.len(),
    ensures
        match r {
            Some(hs) => spec_parse_headers(buf@.subrange(pos as int, end as int)) == Some(
                headers_view(hs),
            ),
            None => spec_parse_headers(buf@.subrange(pos as int, end as int)) is None,
        },
{
    let ghost full = buf@.subrange(pos as int, end as int);
    let mut acc: Vec<(String, String)> = Vec::new();
    let mut p: usize = pos;
    proof {
        assert(headers_view(acc) =~= Seq::<(Seq<char>, Seq<char>)>::empty());
    }
    while p < end
        invariant
            pos <= p <= end <= buf@.len(),
            full == buf@.subrange(pos as int, end as int),
            match spec_parse_headers(buf@.subrange(p as int, end as int)) {
                Some(tail) => spec_parse_headers(full) == Some(headers_view(acc) + tail),
                None => spec_parse_headers(full) is None,
            },
        decreases end - p,
    {
        let ghost b = buf@.subrange(p as int, end as int);
        if buf[p] != 0x02 {
            proof {
                assert(b[0] == buf@[p as int]);
            }
            return None;
        }
        proof {
            assert(b[0] == buf@[p as int]);
            assert(b.skip(1) =~= buf@.subrange(p as int + 1, end as int));
        }
        let kb = match parse_cstring(buf, p + 1, end) {
            Some(x) => x,
            None => {
                return None;
            },
        };
        let vb = match parse_str_value(buf, kb.1, end) {
            Some(x) => x,
            None => {
                return None;
            },
        };
        let ghost kbv = kb.0@;
        let ghost vbv = vb.0@;
        let key = match bytes_to_string(kb.0) {
            Some(s) => s,
            None => {
                return None;
            },
        };
        let value = match bytes_to_string(vb.0) {
            Some(s) => s,
            None => {
                return None;
            },
        };
        proof {
            vstd::utf8::encode_utf8_decode_utf8(key@);
            vstd::utf8::encode_utf8_decode_utf8(value@);
        }
        let ghost acc0 = headers_view(acc);
        acc.push((key, value));
        proof {
            assert(headers_view(acc) =~= acc0 + seq![(decode_utf8(kbv), decode_utf8(vbv))]);
            let tail0 = spec_parse_headers(b);
            let tail1 = spec_parse_headers(buf@.subrange(vb.1 as int, end as int));
            assert(tail0 == match tail1 {
                Some(rest) => Some(seq![(decode_utf8(kbv), decode_utf8(vbv))] + rest),
                None => None,
            });
            if tail1 is Some {
                assert(acc0 + (seq![(decode_utf8(kbv), decode_utf8(vbv))] + tail1->0) =~= (acc0
                    + seq![(decode_utf8(kbv), decode_utf8(vbv))]) + tail1->0);
            }
        }
        p = vb.1;
    }
    proof {
        assert(buf@.subrange(p as int, end as int).len() == 0);
        assert(headers_view(acc) + Seq::<(Seq<char>, Seq<char>)>::empty() =~= headers_view(acc));
    }
    Some(acc)
}

/// Consumes the whole body array document in `buf[pos..end)`.
fn parse_items(buf: &[u8], pos: usize, end: usize) -> (r: Option<Vec<u8>>)
    requires
        pos <= end <= buf@.len(),
        end - pos <= MAX_DOCUMENT_LEN,
    ensures
        match r {
            Some(items) => spec_parse_items(buf@.subrange(pos as int, end as int), 0) == Some(
                items@,
            ),
            None => spec_parse_items(buf@.subrange(pos as int, end as int), 0) is None,
        },
{
    let ghost full = buf@.subrange(pos as int, end as int);
    let mut acc: Vec<u8> = Vec::new();
    let mut p: usize = pos;
    let mut idx: usize = 0;
    while p < end
        invariant
            pos <= p <= end <= buf@.len(),
            end - pos <= MAX_DOCUMENT_LEN,
            idx <= p - pos,
            acc@.len() == idx,
            full == buf@.subrange(pos as int, end as int),
            match spec_parse_items(buf@.subrange(p as int, end as int), idx as nat) {
                Some(tail) => spec_parse_items(full, 0) == Some(acc@ + tail),
                None => spec_parse_items(full, 0) is None,
            },
        decreases end - p,
    {
        let ghost b = buf@.subrange(p as int, end as int);
        let mut name: Vec<u8> = Vec::new();
        push_dec(&mut name, idx as u32);
        name.push(0);
        proof {
            assert(name@ =~= dec_bytes(idx as nat).push(0u8));
        }
        let p1 = match parse_tag_name(buf, p, end, 0x10, &name) {
            Some(x) => x,
            None => {
                return None;
            },
        };
        if end - p1 < 4 {
            return None;
        }
        let n32 = read_le32(buf, p1);
        proof {
            assert(buf@.subrange(p1 as int, end as int).subrange(0, 4) =~= buf@.subrange(
                p1 as int,
                p1 as int + 4,
            ));
        }
        if n32 >= 256 {
            return None;
        }
        let ghost acc0 = acc@;
        acc.push(n32 as u8);
        proof {
            assert(buf@.subrange(p1 as int, end as int).skip(4) =~= buf@.subrange(
                p1 as int + 4,
                end as int,
            ));
            let tail0 = spec_parse_items(b, idx as nat);
            let tail1 = spec_parse_items(
                buf@.subrange(p1 as int + 4, end as int),
                (idx + 1) as nat,
            );
            assert(tail0 == match tail1 {
                Some(rest) => Some(seq![n32 as u8] + rest),
                None => None,
            });
            if tail1 is Some {
                assert(acc0 + (seq![n32 as u8] + tail1->0) =~= (acc0 + seq![n32 as u8])
                    + tail1->0);
            }
        }
        p = p1 + 4;
        idx += 1;
    }
    proof {
        assert(buf@.subrange(p as int, end as int).len() == 0);
        assert(acc@ + Seq::<u8>::empty() =~= acc@);
    }
    Some(acc)
}

fn name_type_vec() -> (v: Vec<u8>)
    ensures
        v@ == name_type(),
{
    let mut v: Vec<u8> = Vec::new();
    push_name_type(&mut v);
    proof {
        assert(v@ =~= name_type());
    }
    v
}

fn name_path_vec() -> (v: Vec<u8>)
    ensures
        v@ == name_path(),
{
    let mut v: Vec<u8> = Vec::new();
    push_name_path(&mut v);
    proof {
        assert(v@ =~= name_path());
    }
    v
}

fn name_headers_vec() -> (v: Vec<u8>)
    ensures
        v@ == name_headers(),
{
    let mut v: Vec<u8> = Vec::new();
    push_name_headers(&mut v);
    proof {
        assert(v@ =~= name_headers());
    }
    v
}

fn name_body_vec() -> (v: Vec<u8>)
    ensures
        v@ == name_body(),
{
    let mut v: Vec<u8> = Vec::new();
    push_name_body(&mut v);
    proof {
        assert(v@ =~= name_body());
    }
    v
}

fn name_status_vec() -> (v: Vec<u8>)
    ensures
        v@ == name_status(),
{
    let mut v: Vec<u8> = Vec::new();
    push_name_status(&mut v);
    proof {
        assert(v@ =~= name_status());
    }
    v
}

/// Consumes the body element in `buf[pos..end)`.
fn parse_body_el(buf: &[u8], pos: usize, end: usize) -> (r: Option<(Option<Vec<u8>>, usize)>)
    requires
        pos <= end <= buf@.len(),
    ensures
        match r {
            Some(v) => pos < v.1 <= end && spec_parse_body_el(
                buf@.subrange(pos as int, end as int),
            ) == Some((opt_bytes_view(v.0), buf@.subrange(v.1 as int, end as int))),
            None => spec_parse_body_el(buf@.subrange(pos as int, end as int)) is None,
        },
{
    let ghost b = buf@.subrange(pos as int, end as int);
    let name = name_body_vec();
    if pos < end && buf[pos] == 0x0a {
        proof {
            assert(b[0] == buf@[pos as int]);
            assert(b.skip(1) =~= buf@.subrange(pos as int + 1, end as int));
        }
        match parse_tag_name(buf, pos, end, 0x0a, &name) {
            Some(p2) => Some((None, p2)),
            None => None,
        }
    } else {
        proof {
            if b.len() >= 1 {
                assert(b[0] == buf@[pos as int]);
            }
        }
        let p1 = match parse_tag_name(buf, pos, end, 0x04, &name) {
            Some(x) => x,
            None => {
                return None;
            },
        };
        let d = match parse_doc(buf, p1, end) {
            Some(x) => x,
            None => {
                return None;
            },
        };
        let items = match parse_items(buf, p1 + 4, d.0) {
            Some(x) => x,
            None => {
                return None;
            },
        };
        Some((Some(items), d.1))
    }
}

/// Consumes the path element of a response in `buf[pos..end)`.
fn parse_opt_path_el(buf: &[u8], pos: usize, end: usize) -> (r: Option<(Option<Vec<u8>>, usize)>)
    requires
        pos <= end <= buf@.len(),
    ensures
        match r {
            Some(v) => pos < v.1 <= end && spec_parse_opt_path_el(
                buf@.subrange(pos as int, end as int),
            ) == Some((opt_bytes_view(v.0), buf@.subrange(v.1 as int, end as int))),
            None => spec_parse_opt_path_el(buf@.subrange(pos as int, end as int)) is None,
        },
{
    let ghost b = buf@.subrange(pos as int, end as int);
    let name = name_path_vec();
    if pos < end && buf[pos] == 0x0a {
        proof {
            assert(b[0] == buf@[pos as int]);
            assert(b.skip(1) =~= buf@.subrange(pos as int + 1, end as int));
        }
        match parse_tag_name(buf, pos, end, 0x0a, &name) {
            Some(p2) => Some((None, p2)),
            None => None,
        }
    } else {
        proof {
            if b.len() >= 1 {
                assert(b[0] == buf@[pos as int]);
            }
        }
        match parse_string_el(buf, pos, end, &name) {
            Some(v) => Some((Some(v.0), v.1)),
            None => None,
        }
    }
}

/// Decodes one request document. Accepts exactly the byte strings
/// `spec_decode_request` accepts, and returns exactly the value it names.
pub fn decode_request(buf: &[u8]) -> (r: Option<Request>)
    ensures
        match r {
            Some(req) => spec_decode_request(buf@) == Some(req@),
            None => spec_decode_request(buf@) is None,
        },
{
    if buf.len() < 5 || buf.len() > MAX_DOCUMENT_LEN {
        return None;
    }
    let n32 = read_le32(buf, 0);
    proof {
        assert(buf@.subrange(0, 4) =~= buf@.subrange(0int, 0int + 4));
    }
    if n32 as usize != buf.len() {
        return None;
    }
    if buf[buf.len() - 1] != 0 {
        return None;
    }
    let end = buf.len() - 1;
    let ghost els = buf@.subrange(4, buf@.len() - 1);
    proof {
        assert(els =~= buf@.subrange(4int, end as int));
    }
    let kp = match parse_string_el(buf, 4, end, &name_type_vec()) {
        Some(x) => x,
        None => {
            return None;
        },
    };
    let kind = match kind_of(&kp.0) {
        Some(k) => k,
        None => {
            return None;
        },
    };
    let pp = match parse_string_el(buf, kp.1, end, &name_path_vec()) {
        Some(x) => x,
        None => {
            return None;
        },
    };
    let path = match bytes_to_string(pp.0) {
        Some(s) => s,
        None => {
            return None;
        },
    };
    proof {
        vstd::utf8::encode_utf8_decode_utf8(path@);
    }
    let hp1 = match parse_tag_name(buf, pp.1, end, 0x03, &name_headers_vec()) {
        Some(x) => x,
        None => {
            return None;
        },
    };
    let hd = match parse_doc(buf, hp1, end) {
        Some(x) => x,
        None => {
            return None;
        },
    };
    let headers = match parse_headers(buf, hp1 + 4, hd.0) {
        Some(x) => x,
        None => {
            return None;
        },
    };
    let bp = match parse_body_el(buf, hd.1, end) {
        Some(x) => x,
        None => {
            return None;
        },
    };
    if bp.1 != end {
        return None;
    }
    let req = Request { kind, path, headers, body: bp.0 };
    proof {
        assert(req@ =~= spec_decode_request(buf@)->0);
    }
    Some(req)
}

/// The response owed for a payload that does not decode: kind `Generic`,
/// no path, status `Unparseable`.
pub open spec fn unparseable_view() -> ResponseView {
    ResponseView {
        kind: Type::Generic,
        path: None,
        status: Status::Unparseable,
        headers: Seq::empty(),
        body: None,
    }
}

/// Turns one framed message into a request, or into the response the sender
/// is owed for a payload that does not decode. The connection stays open
/// either way.
pub fn process_request(buf: &[u8]) -> (r: Result<Request, Response>)
    ensures
        match r {
            Ok(req) => spec_decode_request(buf@) == Some(req@),
            Err(resp) => spec_decode_request(buf@) is None && resp@ == unparseable_view(),
        },
{
    match decode_request(buf) {
        Some(req) => Ok(req),
        None => {
            let resp = Response {
                kind: Type::Generic,
                path: None,
                status: Status::Unparseable,
                headers: Vec::new(),
                body: None,
            };
            proof {
                assert(resp@ =~= unparseable_view());
            }
            Err(resp)
        },
    }
}

/// Decodes one response document, the exact mirror of `decode_request` for
/// responses.
pub fn decode_response(buf: &[u8]) -> (r: Option<Response>)
    ensures
        match r {
            Some(resp) => spec_decode_response(buf@) == Some(resp@),
            None => spec_decode_response(buf@) is None,
        },
{
    if buf.len() < 5 || buf.len() > MAX_DOCUMENT_LEN {
        return None;
    }
    let n32 = read_le32(buf, 0);
    proof {
        assert(buf@.subrange(0, 4) =~= buf@.subrange(0int, 0int + 4));
    }
    if n32 as usize != buf.len() {
        return None;
    }
    if buf[buf.len() - 1] != 0 {
        return None;
    }
    let end = buf.len() - 1;
    let ghost els = buf@.subrange(4, buf@.len() - 1);
    proof {
        assert(els =~= buf@.subrange(4int, end as int));
    }
    let kp = match parse_string_el(buf, 4, end, &name_type_vec()) {
        Some(x) => x,
        None => {
            return None;
        },
    };
    let kind = match kind_of(&kp.0) {
        Some(k) => k,
        None => {
            return None;
        },
    };
    let pp = match parse_opt_path_el(buf, kp.1, end) {
        Some(x) => x,
        None => {
            return None;
        },
    };
    let path: Option<String> = match pp.0 {
        Some(pb) => {
            match bytes_to_string(pb) {
                Some(s) => {
                    proof {
                        vstd::utf8::encode_utf8_decode_utf8(s@);
                    }
                    Some(s)
                },
                None => {
                    return None;
                },
            }
        },
        None => None,
    };
    let sp = match parse_string_el(buf, pp.1, end, &name_status_vec()) {
        Some(x) => x,
        None => {
            return None;
        },
    };
    let status = match status_of(&sp.0) {
        Some(s) => s,
        None => {
            return None;
        },
    };
    let hp1 = match parse_tag_name(buf, sp.1, end, 0x03, &name_headers_vec()) {
        Some(x) => x,
        None => {
            return None;
        },
    };
    let hd = match parse_doc(buf, hp1, end) {
        Some(x) => x,
        None => {
            return None;
        },
    };
    let headers = match parse_headers(buf, hp1 + 4, hd.0) {
        Some(x) => x,
        None => {
            return None;
        },
    };
    let bp = match parse_body_el(buf, hd.1, end) {
        Some(x) => x,
        None => {
            return None;
        },
    };
    if bp.1 != end {
        return None;
    }
    let resp = Response { kind, path, status, headers, body: bp.0 };
    proof {
        assert(resp@ =~= spec_decode_response(buf@)->0);
    }
    Some(resp)
}

// ---------------------------------------------------------------------------
// Round trip: whatever is encoded decodes back to itself
// ---------------------------------------------------------------------------
proof fn lemma_parse_name_exact(name: Seq<u8>, rest: Seq<u8>)
    ensures
        spec_parse_name(name + rest, name) == Some(rest),
{
    let b = name + rest;
    assert(b.subrange(0, name.len() as int) =~= name);
    assert(b.skip(name.len() as int) =~= rest);
}

proof fn lemma_parse_tag_name_exact(tag: u8, name: Seq<u8>, rest: Seq<u8>)
    ensures
        spec_parse_tag_name(seq![tag] + name + rest, tag, name) == Some(rest),
{
    let b = seq![tag] + name + rest;
    assert(b[0] == tag);
    assert(b.skip(1) =~= name + rest);
    lemma_parse_name_exact(name, rest);
}

proof fn lemma_parse_str_value_exact(vb: Seq<u8>, rest: Seq<u8>)
    requires
        vb.len() + 1 <= MAX_DOCUMENT_LEN as int,
    ensures
        spec_parse_str_value(spec_str_value(vb) + rest) == Some((vb, rest)),
{
    let b = spec_str_value(vb) + rest;
    let n32 = (vb.len() + 1) as u32;
    lemma_le32_roundtrip(n32);
    assert(b.subrange(0, 4) =~= le32_bytes(n32));
    let n = le32_value(b.subrange(0, 4)) as int;
    assert(n == vb.len() + 1);
    assert(b[4 + n - 1] == 0);
    assert(b.subrange(4, 4 + n - 1) =~= vb);
    assert(b.skip(4 + n) =~= rest);
}

proof fn lemma_parse_string_el_exact(name: Seq<u8>, vb: Seq<u8>, rest: Seq<u8>)
    requires
        vb.len() + 1 <= MAX_DOCUMENT_LEN as int,
    ensures
        spec_parse_string_el(el_string(name, vb) + rest, name) == Some((vb, rest)),
{
    assert(el_string(name, vb) + rest =~= seq![0x02u8] + name + (spec_str_value(vb) + rest));
    lemma_parse_tag_name_exact(0x02, name, spec_str_value(vb) + rest);
    lemma_parse_str_value_exact(vb, rest);
}

proof fn lemma_parse_doc_exact(inner: Seq<u8>, rest: Seq<u8>)
    requires
        inner.len() + 5 <= MAX_DOCUMENT_LEN as int,
    ensures
        spec_parse_doc(spec_doc(inner) + rest) == Some((inner, rest)),
{
    let b = spec_doc(inner) + rest;
    let n32 = (inner.len() + 5) as u32;
    lemma_le32_roundtrip(n32);
    assert(b.subrange(0, 4) =~= le32_bytes(n32));
    let n = le32_value(b.subrange(0, 4)) as int;
    assert(n == inner.len() + 5);
    assert(b[n - 1] == 0);
    assert(b.subrange(4, n - 1) =~= inner);
    assert(b.skip(n) =~= rest);
}

proof fn lemma_parse_cstring_exact(s: Seq<u8>, rest: Seq<u8>)
    requires
        no_nul(s),
    ensures
        spec_parse_cstring(s + seq![0u8] + rest) == Some((s, rest)),
    decreases s.len(),
{
    let b = s + seq![0u8] + rest;
    if s.len() == 0 {
        assert(b[0] == 0);
        assert(b.skip(1) =~= rest);
        let p = spec_parse_cstring(b)->0;
        assert(p.0 =~= s);
    } else {
        assert(b[0] == s[0]);
        assert(b.skip(1) =~= s.drop_first() + seq![0u8] + rest);
        lemma_parse_cstring_exact(s.drop_first(), rest);
        assert(seq![s[0]] + s.drop_first() =~= s);
    }
}

proof fn lemma_parse_headers_exact(hs: Seq<(Seq<char>, Seq<char>)>)
    requires
        valid_header_keys(hs),
        spec_header_elements(hs).len() <= MAX_DOCUMENT_LEN as int,
    ensures
        spec_parse_headers(spec_header_elements(hs)) == Some(hs),
    decreases hs.len(),
{
    broadcast use vstd::utf8::encode_utf8_valid_utf8;
    broadcast use vstd::utf8::encode_utf8_decode_utf8;

    let b = spec_header_elements(hs);
    if hs.len() == 0 {
        assert(b.len() == 0);
    } else {
        let kb = encode_utf8(hs[0].0);
        let vb = encode_utf8(hs[0].1);
        let tail = spec_header_elements(hs.drop_first());
        let el = el_string(kb.push(0u8), vb);
        assert(b == el + tail);
        assert(b[0] == 0x02);
        lemma_header_elements_len_ge(hs, 0);
        assert(b.skip(1) =~= kb + seq![0u8] + (spec_str_value(vb) + tail));
        lemma_parse_cstring_exact(kb, spec_str_value(vb) + tail);
        lemma_parse_str_value_exact(vb, tail);
        assert(hs.drop_first().len() < hs.len());
        assert forall|j: int| 0 <= j < hs.drop_first().len() implies no_nul(
            encode_utf8(hs.drop_first()[j].0),
        ) by {
            assert(hs.drop_first()[j] == hs[j + 1]);
        }
        lemma_parse_headers_exact(hs.drop_first());
        assert(decode_utf8(kb) == hs[0].0);
        assert(decode_utf8(vb) == hs[0].1);
        assert((hs[0].0, hs[0].1) == hs[0]);
        assert(seq![hs[0]] + hs.drop_first() =~= hs);
    }
}

proof fn lemma_parse_items_exact(bs: Seq<u8>, idx: nat)
    ensures
        spec_parse_items(spec_body_items(bs, idx), idx) == Some(bs),
    decreases bs.len(),
{
    let b = spec_body_items(bs, idx);
    if bs.len() == 0 {
        assert(b.len() == 0);
    } else {
        let name = dec_bytes(idx).push(0u8);
        let tail = spec_body_items(bs.drop_first(), (idx + 1) as nat);
        let n32 = bs[0] as u32;
        assert(b == el_int32(name, n32) + tail);
        assert(b =~= seq![0x10u8] + name + (le32_bytes(n32) + tail));
        lemma_parse_tag_name_exact(0x10, name, le32_bytes(n32) + tail);
        let r1 = le32_bytes(n32) + tail;
        lemma_le32_roundtrip(n32);
        assert(r1.subrange(0, 4) =~= le32_bytes(n32));
        assert(le32_value(r1.subrange(0, 4)) == n32);
        assert(n32 < 256);
        assert(r1.skip(4) =~= tail);
        lemma_parse_items_exact(bs.drop_first(), (idx + 1) as nat);
        assert((n32 as u8) == bs[0]);
        assert(seq![bs[0]] + bs.drop_first() =~= bs);
    }
}

proof fn lemma_parse_body_el_exact(ob: Option<Seq<u8>>, rest: Seq<u8>)
    requires
        ob matches Some(bs) ==> spec_body_items(bs, 0).len() + 5 <= MAX_DOCUMENT_LEN as int,
    ensures
        spec_parse_body_el(spec_body_el(ob) + rest) == Some((ob, rest)),
{
    let b = spec_body_el(ob) + rest;
    match ob {
        None => {
            assert(b[0] == 0x0a);
            assert(b.skip(1) =~= name_body() + rest);
            lemma_parse_name_exact(name_body(), rest);
        },
        Some(bs) => {
            let items = spec_body_items(bs, 0);
            assert(b[0] == 0x04);
            assert(b =~= seq![0x04u8] + name_body() + (spec_doc(items) + rest));
            lemma_parse_tag_name_exact(0x04, name_body(), spec_doc(items) + rest);
            lemma_parse_doc_exact(items, rest);
            lemma_parse_items_exact(bs, 0);
        },
    }
}

proof fn lemma_kind_of_bytes(k: Type)
    ensures
        spec_kind_of(kind_bytes(k)) == Some(k),
{
    assert(kind_bytes(Type::Publish).len() == 7);
    assert(kind_bytes(Type::Subscribe).len() == 9);
    assert(kind_bytes(Type::Unsubscribe).len() == 11);
    assert(kind_bytes(Type::Message).len() == 7);
    assert(kind_bytes(Type::Generic).len() == 7);
    assert(kind_bytes(Type::Publish)[0] == 0x50);
    assert(kind_bytes(Type::Message)[0] == 0x4d);
    assert(kind_bytes(Type::Generic)[0] == 0x47);
}

proof fn lemma_status_of_bytes(s: Status)
    ensures
        spec_status_of(status_bytes(s)) == Some(s),
{
    assert(status_bytes(Status::Okay).len() == 2);
    assert(status_bytes(Status::Unparseable).len() == 11);
    assert(status_bytes(Status::BadRequest).len() == 10);
}

proof fn lemma_headers_body_tail(hs: Seq<(Seq<char>, Seq<char>)>, ob: Option<Seq<u8>>)
    requires
        valid_header_keys(hs),
        spec_header_elements(hs).len() + 5 <= MAX_DOCUMENT_LEN as int,
        ob matches Some(bs) ==> spec_body_items(bs, 0).len() + 5 <= MAX_DOCUMENT_LEN as int,
    ensures
        spec_parse_doc_el(
            el_doc(name_headers(), spec_header_elements(hs)) + spec_body_el(ob),
            name_headers(),
        ) == Some((spec_header_elements(hs), spec_body_el(ob))),
        spec_parse_headers(spec_header_elements(hs)) == Some(hs),
        spec_parse_body_el(spec_body_el(ob)) == Some((ob, Seq::<u8>::empty())),
{
    let el_d = spec_body_el(ob);
    let doc_h = spec_doc(spec_header_elements(hs));
    vstd::seq_lib::lemma_concat_associative(seq![0x03u8] + name_headers(), doc_h, el_d);
    assert(el_doc(name_headers(), spec_header_elements(hs)) + el_d == seq![0x03u8]
        + name_headers() + (doc_h + el_d));
    lemma_parse_tag_name_exact(0x03, name_headers(), doc_h + el_d);
    lemma_parse_doc_exact(spec_header_elements(hs), el_d);
    lemma_parse_headers_exact(hs);
    Seq::<u8>::add_empty_right(el_d, Seq::<u8>::empty());
    lemma_parse_body_el_exact(ob, Seq::<u8>::empty());
}

/// The round trip: a request the wire format can carry decodes, from its
/// own encoding, back to exactly itself.
pub proof fn lemma_request_roundtrip(v: RequestView)
    requires
        request_encodable(v),
    ensures
        spec_decode_request(spec_encode_request(v)) == Some(v),
{
    let els = spec_request_elements(v);
    let b = spec_encode_request(v);
    let n32 = (els.len() + 5) as u32;
    lemma_le32_roundtrip(n32);
    assert(b.subrange(0, 4) =~= le32_bytes(n32));
    assert(le32_value(b.subrange(0, 4)) as int == b.len());
    assert(b[b.len() - 1] == 0);
    assert(b.subrange(4, b.len() - 1) =~= els);
    lemma_request_els_roundtrip(v);
}

#[verifier::rlimit(100)]
#[verifier::spinoff_prover]
proof fn lemma_request_els_roundtrip(v: RequestView)
    requires
        request_encodable(v),
    ensures
        spec_decode_request_els(spec_request_elements(v)) == Some(v),
{
    broadcast use vstd::utf8::encode_utf8_valid_utf8;
    broadcast use vstd::utf8::encode_utf8_decode_utf8;

    let els = spec_request_elements(v);
    let el_a = el_string(name_type(), kind_bytes(v.kind));
    let el_b = el_string(name_path(), encode_utf8(v.path));
    let el_c = el_doc(name_headers(), spec_header_elements(v.headers));
    let el_d = spec_body_el(v.body);
    let rest2 = el_c + el_d;
    let rest1 = el_b + rest2;

    vstd::seq_lib::lemma_concat_associative(el_a + el_b, el_c, el_d);
    vstd::seq_lib::lemma_concat_associative(el_a, el_b, rest2);
    assert(els == el_a + rest1);
    assert(kind_bytes(v.kind).len() + 1 <= MAX_DOCUMENT_LEN as int) by {
        match v.kind {
            Type::Publish => assert(kind_bytes(v.kind).len() == 7),
            Type::Subscribe => assert(kind_bytes(v.kind).len() == 9),
            Type::Unsubscribe => assert(kind_bytes(v.kind).len() == 11),
            Type::Message => assert(kind_bytes(v.kind).len() == 7),
            Type::Generic => assert(kind_bytes(v.kind).len() == 7),
        }
    }
    lemma_parse_string_el_exact(name_type(), kind_bytes(v.kind), rest1);
    lemma_kind_of_bytes(v.kind);

    lemma_parse_string_el_exact(name_path(), encode_utf8(v.path), rest2);

    if v.body is Some {
        assert(el_d.len() >= spec_body_items(v.body->0, 0).len() + 11);
    }
    lemma_headers_body_tail(v.headers, v.body);

    assert(spec_decode_request_els(els)->0 =~= v);
}

/// The round trip for responses.
pub proof fn lemma_response_roundtrip(v: ResponseView)
    requires
        response_encodable(v),
    ensures
        spec_decode_response(spec_encode_response(v)) == Some(v),
{
    let els = spec_response_elements(v);
    let b = spec_encode_response(v);
    let n32 = (els.len() + 5) as u32;
    lemma_le32_roundtrip(n32);
    assert(b.subrange(0, 4) =~= le32_bytes(n32));
    assert(le32_value(b.subrange(0, 4)) as int == b.len());
    assert(b[b.len() - 1] == 0);
    assert(b.subrange(4, b.len() - 1) =~= els);
    lemma_response_els_roundtrip(v);
}

#[verifier::rlimit(100)]
#[verifier::spinoff_prover]
proof fn lemma_response_els_roundtrip(v: ResponseView)
    requires
        response_encodable(v),
    ensures
        spec_decode_response_els(spec_response_elements(v)) == Some(v),
{
    if v.path is Some {
        lemma_response_els_roundtrip_some_path(v);
    } else {
        lemma_response_els_roundtrip_none_path(v);
    }
}

#[verifier::rlimit(100)]
#[verifier::spinoff_prover]
proof fn lemma_response_els_roundtrip_none_path(v: ResponseView)
    requires
        response_encodable(v),
        v.path is None,
    ensures
        spec_decode_response_els(spec_response_elements(v)) == Some(v),
{
    broadcast use vstd::utf8::encode_utf8_valid_utf8;
    broadcast use vstd::utf8::encode_utf8_decode_utf8;

    let els = spec_response_elements(v);
    let el_a = el_string(name_type(), kind_bytes(v.kind));
    let el_p = spec_path_el(v.path);
    let el_s = el_string(name_status(), status_bytes(v.status));
    let el_c = el_doc(name_headers(), spec_header_elements(v.headers));
    let el_d = spec_body_el(v.body);
    let rest3 = el_c + el_d;
    let rest2 = el_s + rest3;
    let rest1 = el_p + rest2;

    vstd::seq_lib::lemma_concat_associative(el_a + el_p + el_s, el_c, el_d);
    vstd::seq_lib::lemma_concat_associative(el_a + el_p, el_s, rest3);
    vstd::seq_lib::lemma_concat_associative(el_a, el_p, rest2);
    assert(els == el_a + rest1);
    assert(kind_bytes(v.kind).len() + 1 <= MAX_DOCUMENT_LEN as int) by {
        match v.kind {
            Type::Publish => assert(kind_bytes(v.kind).len() == 7),
            Type::Subscribe => assert(kind_bytes(v.kind).len() == 9),
            Type::Unsubscribe => assert(kind_bytes(v.kind).len() == 11),
            Type::Message => assert(kind_bytes(v.kind).len() == 7),
            Type::Generic => assert(kind_bytes(v.kind).len() == 7),
        }
    }
    lemma_parse_string_el_exact(name_type(), kind_bytes(v.kind), rest1);
    lemma_kind_of_bytes(v.kind);

    assert((el_p + rest2)[0] == 0x0a);
    assert((el_p + rest2).skip(1) =~= name_path() + rest2);
    lemma_parse_name_exact(name_path(), rest2);

    assert(status_bytes(v.status).len() + 1 <= MAX_DOCUMENT_LEN as int) by {
        match v.status {
            Status::Okay => assert(status_bytes(v.status).len() == 2),
            Status::Unparseable => assert(status_bytes(v.status).len() == 11),
            Status::BadRequest => assert(status_bytes(v.status).len() == 10),
        }
    }
    lemma_parse_string_el_exact(name_status(), status_bytes(v.status), rest3);
    lemma_status_of_bytes(v.status);

    if v.body is Some {
        assert(el_d.len() >= spec_body_items(v.body->0, 0).len() + 11);
    }
    lemma_headers_body_tail(v.headers, v.body);

    assert(spec_decode_response_els(els)->0 =~= v);
}

#[verifier::rlimit(100)]
#[verifier::spinoff_prover]
proof fn lemma_response_els_roundtrip_some_path(v: ResponseView)
    requires
        response_encodable(v),
        v.path is Some,
    ensures
        spec_decode_response_els(spec_response_elements(v)) == Some(v),
{
    broadcast use vstd::utf8::encode_utf8_valid_utf8;
    broadcast use vstd::utf8::encode_utf8_decode_utf8;

    let els = spec_response_elements(v);
    let el_a = el_string(name_type(), kind_bytes(v.kind));
    let el_p = spec_path_el(v.path);
    let el_s = el_string(name_status(), status_bytes(v.status));
    let el_c = el_doc(name_headers(), spec_header_elements(v.headers));
    let el_d = spec_body_el(v.body);
    let rest3 = el_c + el_d;
    let rest2 = el_s + rest3;
    let rest1 = el_p + rest2;

    vstd::seq_lib::lemma_concat_associative(el_a + el_p + el_s, el_c, el_d);
    vstd::seq_lib::lemma_concat_associative(el_a + el_p, el_s, rest3);
    vstd::seq_lib::lemma_concat_associative(el_a, el_p, rest2);
    assert(els == el_a + rest1);
    assert(kind_bytes(v.kind).len() + 1 <= MAX_DOCUMENT_LEN as int) by {
        match v.kind {
            Type::Publish => assert(kind_bytes(v.kind).len() == 7),
            Type::Subscribe => assert(kind_bytes(v.kind).len() == 9),
            Type::Unsubscribe => assert(kind_bytes(v.kind).len() == 11),
            Type::Message => assert(kind_bytes(v.kind).len() == 7),
            Type::Generic => assert(kind_bytes(v.kind).len() == 7),
        }
    }
    lemma_parse_string_el_exact(name_type(), kind_bytes(v.kind), rest1);
    lemma_kind_of_bytes(v.kind);

    let pc = v.path->0;
    assert((el_p + rest2)[0] == 0x02);
    lemma_parse_string_el_exact(name_path(), encode_utf8(pc), rest2);

    assert(status_bytes(v.status).len() + 1 <= MAX_DOCUMENT_LEN as int) by {
        match v.status {
            Status::Okay => assert(status_bytes(v.status).len() == 2),
            Status::Unparseable => assert(status_bytes(v.status).len() == 11),
            Status::BadRequest => assert(status_bytes(v.status).len() == 10),
        }
    }
    lemma_parse_string_el_exact(name_status(), status_bytes(v.status), rest3);
    lemma_status_of_bytes(v.status);

    if v.body is Some {
        assert(el_d.len() >= spec_body_items(v.body->0, 0).len() + 11);
    }
    lemma_headers_body_tail(v.headers, v.body);

    assert(decode_utf8(encode_utf8(pc)) == pc);
    let d = spec_decode_response_els(els);
    assert(d is Some);
    let r = d->0;
    assert(r.kind == v.kind);
    assert(r.path == v.path);
    assert(r.status == v.status);
    assert(r.headers == v.headers);
    assert(r.body == v.body);
    assert(r == v);
}

} // verus!
