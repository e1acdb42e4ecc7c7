use vstd::prelude::*;
use vstd::slice::slice_subrange;

verus! {

/// Whether an entry holds live data or marks its user key as deleted.
#[derive(Clone, Copy, Debug, PartialEq, Eq, Structural)]
pub enum ValueType {
    TypeDeletion,
    TypeValue,
}

/// Sequence numbers occupy the 56 high bits of a tag.
pub const MAX_SEQUENCE_NUMBER: u64 = 0x00ff_ffff_ffff_ffff;

pub const U64_SIZE: usize = 8;

pub const U32_SIZE: usize = 4;

/// The numeric code of a value type, stored in the low byte of a tag.
pub open spec fn type_code(t: ValueType) -> u64 {
    match t {
        ValueType::TypeDeletion => 0,
        ValueType::TypeValue => 1,
    }
}

/// The tag that packs a sequence number and a value type.
pub open spec fn tag_of(seq: u64, t: ValueType) -> u64 {
    (seq << 8u64) | type_code(t)
}

/// A tag is readable when its low byte is a known value type.
pub open spec fn tag_ok(tag: u64) -> bool {
    tag & 0xff <= 1
}

pub open spec fn tag_seq(tag: u64) -> u64 {
    tag >> 8u64
}

pub open spec fn tag_type(tag: u64) -> ValueType {
    if tag & 0xff == 0 {
        ValueType::TypeDeletion
    } else {
        ValueType::TypeValue
    }
}

/// Little-endian bytes of a 32-bit number.
pub open spec fn u32_le(n: u32) -> Seq<u8> {
    seq![n as u8, (n >> 8u32) as u8, (n >> 16u32) as u8, (n >> 24u32) as u8]
}

/// Little-endian bytes of a 64-bit number.
pub open spec fn u64_le(n: u64) -> Seq<u8> {
    seq![
        n as u8,
        (n >> 8u64) as u8,
        (n >> 16u64) as u8,
        (n >> 24u64) as u8,
        (n >> 32u64) as u8,
        (n >> 40u64) as u8,
        (n >> 48u64) as u8,
        (n >> 56u64) as u8,
    ]
}

/// The 32-bit number read from four little-endian bytes.
pub open spec fn u32_of(b: Seq<u8>) -> u32 {
    (b[0] as u32) | ((b[1] as u32) << 8u32) | ((b[2] as u32) << 16u32) | ((b[3] as u32) << 24u32)
}

/// The 64-bit number read from eight little-endian bytes.
pub open spec fn u64_of(b: Seq<u8>) -> u64 {
    (b[0] as u64) | ((b[1] as u64) << 8u64) | ((b[2] as u64) << 16u64) | ((b[3] as u64) << 24u64)
        | ((b[4] as u64) << 32u64) | ((b[5] as u64) << 40u64) | ((b[6] as u64) << 48u64) | ((
    b[7] as u64) << 56u64)
}

/// `[key length][user key][tag]`: the prefix of a memtable key.
pub open spec fn lookup_key_bytes(key: Seq<u8>, seq: u64, t: ValueType) -> Seq<u8> {
    u32_le(key.len() as u32) + key + u64_le(tag_of(seq, t))
}

/// `[user key][tag]`: an internal key.
pub open spec fn internal_key_bytes(key: Seq<u8>, seq: u64, t: ValueType) -> Seq<u8> {
    key + u64_le(tag_of(seq, t))
}

/// `[key length][user key][tag][value length][value]`: a memtable key.
pub open spec fn mem_key_bytes(key: Seq<u8>, value: Seq<u8>, seq: u64, t: ValueType) -> Seq<u8> {
    lookup_key_bytes(key, seq, t) + u32_le(value.len() as u32) + value
}

/// Length of the user key that a memtable key announces.
pub open spec fn mk_key_len(m: Seq<u8>) -> int {
    u32_of(m.subrange(0, 4)) as int
}

pub open spec fn mk_tag(m: Seq<u8>) -> u64 {
    u64_of(m.subrange(mk_key_len(m) + 4, mk_key_len(m) + 12))
}

pub open spec fn mk_value_len(m: Seq<u8>) -> int {
    u32_of(m.subrange(mk_key_len(m) + 12, mk_key_len(m) + 16)) as int
}

/// A memtable key whose announced lengths fit in the buffer and whose tag is readable.
pub open spec fn is_mem_key(m: Seq<u8>) -> bool {
    &&& m.len() >= 4
    &&& m.len() >= mk_key_len(m) + 16
    &&& m.len() >= mk_key_len(m) + 16 + mk_value_len(m)
    &&& tag_ok(mk_tag(m))
}

pub open spec fn mk_user_key(m: Seq<u8>) -> Seq<u8> {
    m.subrange(4, mk_key_len(m) + 4)
}

pub open spec fn mk_value(m: Seq<u8>) -> Seq<u8> {
    m.subrange(mk_key_len(m) + 16, mk_key_len(m) + 16 + mk_value_len(m))
}

/// An internal key is the empty sentinel, or ends in a readable tag.
pub open spec fn is_internal_key(k: Seq<u8>) -> bool {
    k.len() == 0 || (k.len() >= 8 && tag_ok(u64_of(k.subrange(k.len() - 8, k.len() as int))))
}

pub open spec fn ik_user_key(k: Seq<u8>) -> Seq<u8> {
    if k.len() == 0 {
        k
    } else {
        k.subrange(0, k.len() - 8)
    }
}

pub open spec fn ik_tag(k: Seq<u8>) -> u64 {
    if k.len() == 0 {
        0
    } else {
        u64_of(k.subrange(k.len() - 8, k.len() as int))
    }
}

pub open spec fn ik_seq(k: Seq<u8>) -> u64 {
    tag_seq(ik_tag(k))
}

pub open spec fn ik_type(k: Seq<u8>) -> ValueType {
    tag_type(ik_tag(k))
}

pub proof fn lemma_u32_round_trip(n: u32)
    ensures
        u32_of(u32_le(n)) == n,
{
    let b = u32_le(n);
    let (b0, b1, b2, b3) = (b[0], b[1], b[2], b[3]);
    assert(b0 == n as u8 && b1 == (n >> 8u32) as u8 && b2 == (n >> 16u32) as u8 && b3 == (n
        >> 24u32) as u8);
    assert((b0 == n as u8 && b1 == (n >> 8u32) as u8 && b2 == (n >> 16u32) as u8 && b3 == (n
        >> 24u32) as u8) ==> (b0 as u32) | ((b1 as u32) << 8u32) | ((b2 as u32) << 16u32) | ((
    b3 as u32) << 24u32) == n) by (bit_vector);
}

pub proof fn lemma_u64_round_trip(n: u64)
    ensures
        u64_of(u64_le(n)) == n,
{
    let b = u64_le(n);
    let (b0, b1, b2, b3, b4, b5, b6, b7) = (b[0], b[1], b[2], b[3], b[4], b[5], b[6], b[7]);
    assert(b0 == n as u8 && b1 == (n >> 8u64) as u8 && b2 == (n >> 16u64) as u8 && b3 == (n
        >> 24u64) as u8 && b4 == (n >> 32u64) as u8 && b5 == (n >> 40u64) as u8 && b6 == (n
        >> 48u64) as u8 && b7 == (n >> 56u64) as u8);
    assert((b0 == n as u8 && b1 == (n >> 8u64) as u8 && b2 == (n >> 16u64) as u8 && b3 == (n
        >> 24u64) as u8 && b4 == (n >> 32u64) as u8 && b5 == (n >> 40u64) as u8 && b6 == (n
        >> 48u64) as u8 && b7 == (n >> 56u64) as u8) ==> (b0 as u64) | ((b1 as u64) << 8u64) | ((
    b2 as u64) << 16u64) | ((b3 as u64) << 24u64) | ((b4 as u64) << 32u64) | ((b5 as u64)
        << 40u64) | ((b6 as u64) << 48u64) | ((b7 as u64) << 56u64) == n) by (bit_vector);
}

/// A tag built from a sequence number in range reads back as that number and type.
pub proof fn lemma_tag_round_trip(seq: u64, t: ValueType)
    requires
        seq <= MAX_SEQUENCE_NUMBER,
    ensures
        tag_ok(tag_of(seq, t)),
        tag_seq(tag_of(seq, t)) == seq,
        tag_type(tag_of(seq, t)) == t,
{
    let c = type_code(t);
    assert(c <= 1);
    assert(c <= 1 ==> ((seq << 8u64) | c) & 0xff == c) by (bit_vector);
    assert((seq <= 0x00ff_ffff_ffff_ffff && c <= 1) ==> ((seq << 8u64) | c) >> 8u64 == seq)
        by (bit_vector);
}

/// Every tag is rebuilt from the number and type it reads as.
pub proof fn lemma_tag_rebuild(tag: u64)
    requires
        tag_ok(tag),
    ensures
        tag_of(tag_seq(tag), tag_type(tag)) == tag,
        tag_seq(tag) <= MAX_SEQUENCE_NUMBER,
{
    let c = type_code(tag_type(tag));
    assert(c == tag & 0xff);
    assert((c == tag & 0xff) ==> ((tag >> 8u64) << 8u64) | c == tag) by (bit_vector);
    assert(tag >> 8u64 <= 0x00ff_ffff_ffff_ffff) by (bit_vector);
}

fn append_bytes(v: &mut Vec<u8>, s: &[u8])
    ensures
        final(v)@ == old(v)@ + s@,
{
    let mut i: usize = 0;
    while i < s.len()
        invariant
            i <= s@.len(),
            v@ == old(v)@ + s@.subrange(0, i as int),
        decreases s@.len() - i,
    {
        v.push(s[i]);
        i += 1;
        assert(s@.subrange(0, i as int) == s@.subrange(0, i - 1) + seq![s@[i - 1]]);
    }
    assert(s@.subrange(0, s@.len() as int) == s@);
}

pub fn u32_to_bytes(num: u32) -> (r: Vec<u8>)
    ensures
        r@ == u32_le(num),
{
    let mut ret = Vec::with_capacity(U32_SIZE);
    ret.push(num as u8);
    ret.push((num >> 8u32) as u8);
    ret.push((num >> 16u32) as u8);
    ret.push((num >> 24u32) as u8);
    assert(ret@ =~= u32_le(num));
    ret
}

pub fn u64_to_bytes(num: u64) -> (r: Vec<u8>)
    ensures
        r@ == u64_le(num),
{
    let mut ret = Vec::with_capacity(U64_SIZE);
    ret.push(num as u8);
    ret.push((num >> 8u64) as u8);
    ret.push((num >> 16u64) as u8);
    ret.push((num >> 24u64) as u8);
    ret.push((num >> 32u64) as u8);
    ret.push((num >> 40u64) as u8);
    ret.push((num >> 48u64) as u8);
    ret.push((num >> 56u64) as u8);
    assert(ret@ =~= u64_le(num));
    ret
}

pub fn u32_from_bytes(bytes: &[u8]) -> (r: u32)
    requires
        bytes@.len() >= 4,
    ensures
        r == u32_of(bytes@),
{
    (bytes[0] as u32) | ((bytes[1] as u32) << 8u32) | ((bytes[2] as u32) << 16u32) | ((
    bytes[3] as u32) << 24u32)
}

pub fn u64_from_bytes(bytes: &[u8]) -> (r: u64)
    requires
        bytes@.len() >= 8,
    ensures
        r == u64_of(bytes@),
{
    (bytes[0] as u64) | ((bytes[1] as u64) << 8u64) | ((bytes[2] as u64) << 16u64) | ((
    bytes[3] as u64) << 24u64) | ((bytes[4] as u64) << 32u64) | ((bytes[5] as u64) << 40u64)
        | ((bytes[6] as u64) << 48u64) | ((bytes[7] as u64) << 56u64)
}

/// `[key length][user key][tag]`, built once per read or write.
pub struct LookupKey {
    key: Vec<u8>,
}

impl LookupKey {
    pub closed spec fn view(&self) -> Seq<u8> {
        self.key@
    }

    /// Well-formed: the length prefix announces the bytes between it and the tag.
    pub open spec fn wf(&self) -> bool {
        &&& self.view().len() >= 12
        &&& u32_of(self.view()) == self.view().len() - 12
    }

    pub fn new(key: &[u8], seq: u64, v_type: ValueType) -> (r: Self)
        requires
            key@.len() <= u32::MAX,
        ensures
            r.view() == lookup_key_bytes(key@, seq, v_type),
            r.wf(),
    {
        let tag = build_tag(&seq, &v_type);
        let mut vec = Vec::with_capacity(key.len());
        let len_bytes = u32_to_bytes(key.len() as u32);
        append_bytes(&mut vec, len_bytes.as_slice());
        append_bytes(&mut vec, key);
        let tag_bytes = u64_to_bytes(tag);
        append_bytes(&mut vec, tag_bytes.as_slice());
        proof {
            lemma_u32_round_trip(key@.len() as u32);
            assert(vec@.subrange(0, 4) == u32_le(key@.len() as u32));
            assert(u32_of(vec@) == u32_of(vec@.subrange(0, 4)));
        }
        LookupKey { key: vec }
    }

    /// The whole buffer: the prefix of a memtable key.
    pub fn mem_key(&self) -> (r: &[u8])
        ensures
            r@ == self.view(),
    {
        self.key.as_slice()
    }

    /// The user key, between the length prefix and the tag.
    pub fn user_key(&self) -> (r: &[u8])
        requires
            self.wf(),
        ensures
            r@ == self.view().subrange(4, self.view().len() - 8),
    {
        slice_subrange(self.key.as_slice(), U32_SIZE, self.key.len() - U64_SIZE)
    }

    /// The internal key: everything after the length prefix.
    pub fn internal_key(&self) -> (r: &[u8])
        requires
            self.wf(),
        ensures
            r@ == self.view().subrange(4, self.view().len() as int),
    {
        slice_subrange(self.key.as_slice(), U32_SIZE, self.key.len())
    }
}

/// An internal key built from a sequence number in range reads back as its parts.
pub proof fn lemma_internal_key_parts(key: Seq<u8>, seq: u64, t: ValueType)
    requires
        seq <= MAX_SEQUENCE_NUMBER,
    ensures
        is_internal_key(internal_key_bytes(key, seq, t)),
        ik_user_key(internal_key_bytes(key, seq, t)) == key,
        ik_seq(internal_key_bytes(key, seq, t)) == seq,
        ik_type(internal_key_bytes(key, seq, t)) == t,
{
    let k = internal_key_bytes(key, seq, t);
    lemma_u64_round_trip(tag_of(seq, t));
    lemma_tag_round_trip(seq, t);
    assert(k.subrange(k.len() - 8, k.len() as int) =~= u64_le(tag_of(seq, t)));
    assert(k.subrange(0, k.len() - 8) =~= key);
}

/// `[user key][tag]`.
pub fn build_internal_key(key: &[u8], seq: u64, typ: ValueType) -> (r: Vec<u8>)
    ensures
        r@ == internal_key_bytes(key@, seq, typ),
{
    let mut vec = Vec::with_capacity(key.len());
    append_bytes(&mut vec, key);
    let tag_bytes = u64_to_bytes(build_tag(&seq, &typ));
    append_bytes(&mut vec, tag_bytes.as_slice());
    vec
}

/// Splits a tag into its sequence number and value type.
pub fn parse_tag(tag: u64) -> (r: (u64, ValueType))
    requires
        tag_ok(tag),
    ensures
        r.0 == tag_seq(tag),
        r.1 == tag_type(tag),
{
    let seq = tag >> 8u64;
    let typ = tag & 0xff;
    if typ == 0 {
        (seq, ValueType::TypeDeletion)
    } else {
        (seq, ValueType::TypeValue)
    }
}

pub fn build_tag(seq: &u64, typ: &ValueType) -> (r: u64)
    ensures
        r == tag_of(*seq, *typ),
{
    let code: u64 = match typ {
        ValueType::TypeDeletion => 0,
        ValueType::TypeValue => 1,
    };
    (*seq << 8u64) | code
}

pub fn build_mem_key(key: &[u8], value: &[u8], seq: &u64, typ: &ValueType) -> (r: Vec<u8>)
    requires
        key@.len() <= u32::MAX,
        value@.len() <= u32::MAX,
        key@.len() + value@.len() + 16 <= usize::MAX,
    ensures
        r@ == mem_key_bytes(key@, value@, *seq, *typ),
{
    let key_size = key.len();
    let value_size = value.len();
    let mut vec = Vec::with_capacity(U32_SIZE + key_size + U64_SIZE + U32_SIZE + value_size);
    let b1 = u32_to_bytes(key_size as u32);
    append_bytes(&mut vec, b1.as_slice());
    append_bytes(&mut vec, key);
    let b2 = u64_to_bytes(build_tag(seq, typ));
    append_bytes(&mut vec, b2.as_slice());
    let b3 = u32_to_bytes(value_size as u32);
    append_bytes(&mut vec, b3.as_slice());
    append_bytes(&mut vec, value);
    vec
}

/// Decodes a memtable key into user key, sequence number, value type and value.
pub fn parse_mem_key(key: &[u8]) -> (r: (&[u8], u64, ValueType, &[u8]))
    requires
        is_mem_key(key@),
    ensures
        r.0@ == mk_user_key(key@),
        r.1 == tag_seq(mk_tag(key@)),
        r.2 == tag_type(mk_tag(key@)),
        r.3@ == mk_value(key@),
{
    let total = key.len();
    let key_size = u32_from_bytes(slice_subrange(key, 0, U32_SIZE)) as usize;
    assert(key_size == mk_key_len(key@));
    let key_end = key_size + U32_SIZE;
    let k = slice_subrange(key, U32_SIZE, key_end);
    let value_start = key_end + U64_SIZE + U32_SIZE;
    let tag = u64_from_bytes(slice_subrange(key, key_end, key_end + U64_SIZE));
    let value_len = u32_from_bytes(slice_subrange(key, key_end + U64_SIZE, value_start)) as usize;
    assert(value_len == mk_value_len(key@));
    let (seq, typ) = parse_tag(tag);
    let v = slice_subrange(key, value_start, value_start + value_len);
    (k, seq, typ, v)
}

/// Decoding a memtable key gives back what it was built from.
pub proof fn lemma_mem_key_round_trip(key: Seq<u8>, value: Seq<u8>, seq: u64, t: ValueType)
    requires
        key.len() <= u32::MAX,
        value.len() <= u32::MAX,
        seq <= MAX_SEQUENCE_NUMBER,
    ensures
        is_mem_key(mem_key_bytes(key, value, seq, t)),
        mk_user_key(mem_key_bytes(key, value, seq, t)) == key,
        mk_value(mem_key_bytes(key, value, seq, t)) == value,
        tag_seq(mk_tag(mem_key_bytes(key, value, seq, t))) == seq,
        tag_type(mk_tag(mem_key_bytes(key, value, seq, t))) == t,
{
    let m = mem_key_bytes(key, value, seq, t);
    let kl = key.len() as int;
    lemma_u32_round_trip(key.len() as u32);
    lemma_u32_round_trip(value.len() as u32);
    lemma_u64_round_trip(tag_of(seq, t));
    lemma_tag_round_trip(seq, t);
    assert(m.subrange(0, 4) =~= u32_le(key.len() as u32));
    assert(mk_key_len(m) == kl);
    assert(m.subrange(kl + 4, kl + 12) =~= u64_le(tag_of(seq, t)));
    assert(m.subrange(kl + 12, kl + 16) =~= u32_le(value.len() as u32));
    assert(mk_user_key(m) =~= key);
    assert(mk_value(m) =~= value);
}

/// Orders two memtable keys by user key, then by sequence number, newest first.
pub fn cmp_mem_key<C: crate::cmp::Cmp>(ucmp: &C, a: &[u8], b: &[u8]) -> (r: std::cmp::Ordering)
    requires
        is_mem_key(a@),
        is_mem_key(b@),
        ucmp.accepts(mk_user_key(a@)),
        ucmp.accepts(mk_user_key(b@)),
    ensures
        r == crate::cmp::then_seq(
            ucmp.order(mk_user_key(a@), mk_user_key(b@)),
            tag_seq(mk_tag(a@)),
            tag_seq(mk_tag(b@)),
        ),
{
    let (a_user_key, a_seq, _, _) = parse_mem_key(a);
    let (b_user_key, b_seq, _, _) = parse_mem_key(b);
    let o = ucmp.cmp(a_user_key, b_user_key);
    crate::cmp::order_then_seq(o, a_seq, b_seq)
}

/// Splits an internal key into user key, sequence number and value type; the empty key
/// stands for the smallest key of all.
pub fn parse_internal_key(ikey: &[u8]) -> (r: (&[u8], u64, ValueType))
    requires
        is_internal_key(ikey@),
    ensures
        r.0@ == ik_user_key(ikey@),
        r.1 == ik_seq(ikey@),
        r.2 == ik_type(ikey@),
        r.1 <= MAX_SEQUENCE_NUMBER,
{
    if ikey.len() == 0 {
        proof {
            assert(0u64 >> 8u64 == 0 && 0u64 & 0xff == 0) by (bit_vector);
        }
        return (slice_subrange(ikey, 0, 0), 0, ValueType::TypeDeletion);
    }
    let key_end = ikey.len() - U64_SIZE;
    let key = slice_subrange(ikey, 0, key_end);
    let tag = u64_from_bytes(slice_subrange(ikey, key_end, ikey.len()));
    proof {
        lemma_tag_rebuild(tag);
    }
    let (seq, typ) = parse_tag(tag);
    (key, seq, typ)
}

/// Orders two internal keys by user key, then by sequence number, newest first.
pub fn cmp_internal_key<C: crate::cmp::Cmp>(ucmp: &C, a: &[u8], b: &[u8]) -> (r:
    std::cmp::Ordering)
    requires
        is_internal_key(a@),
        is_internal_key(b@),
        ucmp.accepts(ik_user_key(a@)),
        ucmp.accepts(ik_user_key(b@)),
    ensures
        r == crate::cmp::then_seq(
            ucmp.order(ik_user_key(a@), ik_user_key(b@)),
            ik_seq(a@),
            ik_seq(b@),
        ),
{
    let (a_user_key, a_seq, _) = parse_internal_key(a);
    let (b_user_key, b_seq, _) = parse_internal_key(b);
    let o = ucmp.cmp(a_user_key, b_user_key);
    crate::cmp::order_then_seq(o, a_seq, b_seq)
}

/// The user key of a non-empty internal key.
pub fn truncate_internal_to_user_key(ikey: &[u8]) -> (r: &[u8])
    requires
        ikey@.len() >= 8,
    ensures
        r@ == ikey@.subrange(0, ikey@.len() - 8),
{
    let len = ikey.len();
    slice_subrange(ikey, 0, len - U64_SIZE)
}

} // verus!
