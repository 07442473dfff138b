//! Compact encoding of one room-state entry: the id of a state field
//! (event type and state key) together with the id of the state point
//! (the event) that fills it, stored as sixteen big-endian bytes.
use vstd::prelude::*;

verus! {

/// Byte `i` (0 = most significant) of the big-endian encoding of `v`.
pub open spec fn be_byte(v: u64, i: int) -> u8 {
    ((v >> ((56 - 8 * i) as u64)) & 0xff) as u8
}

/// The eight big-endian bytes of `v`.
pub open spec fn be_bytes(v: i64) -> Seq<u8> {
    Seq::new(8, |i: int| be_byte(v as u64, i))
}

/// The value whose big-endian encoding starts at offset `off` of `b`.
pub open spec fn be_value(b: Seq<u8>, off: int) -> i64 {
    (((b[off] as u64) << 56u64) | ((b[off + 1] as u64) << 48u64) | ((b[off + 2] as u64) << 40u64)
        | ((b[off + 3] as u64) << 32u64) | ((b[off + 4] as u64) << 24u64) | ((b[off + 5] as u64)
        << 16u64) | ((b[off + 6] as u64) << 8u64) | (b[off + 7] as u64)) as i64
}

/// One state entry: which field it fills and which state point fills it.
#[derive(Clone, Copy, Debug, PartialEq, Eq, Hash, Structural)]
pub struct CompressedStateEvent {
    pub field_id: i64,
    pub point_id: i64,
}

/// The sixteen bytes under which an entry is stored.
pub open spec fn encoding(field_id: i64, point_id: i64) -> Seq<u8> {
    be_bytes(field_id) + be_bytes(point_id)
}

proof fn lemma_be_roundtrip(v: i64)
    ensures
        be_value(be_bytes(v), 0) == v,
{
    let u = v as u64;
    let b = be_bytes(v);
    assert(b[0] == be_byte(u, 0) && b[1] == be_byte(u, 1) && b[2] == be_byte(u, 2) && b[3]
        == be_byte(u, 3) && b[4] == be_byte(u, 4) && b[5] == be_byte(u, 5) && b[6] == be_byte(u, 6)
        && b[7] == be_byte(u, 7));
    let b0 = ((u >> 56u64) & 0xff) as u8;
    let b1 = ((u >> 48u64) & 0xff) as u8;
    let b2 = ((u >> 40u64) & 0xff) as u8;
    let b3 = ((u >> 32u64) & 0xff) as u8;
    let b4 = ((u >> 24u64) & 0xff) as u8;
    let b5 = ((u >> 16u64) & 0xff) as u8;
    let b6 = ((u >> 8u64) & 0xff) as u8;
    let b7 = ((u >> 0u64) & 0xff) as u8;
    assert((((b0 as u64) << 56u64) | ((b1 as u64) << 48u64) | ((b2 as u64) << 40u64) | ((b3 as u64)
        << 32u64) | ((b4 as u64) << 24u64) | ((b5 as u64) << 16u64) | ((b6 as u64) << 8u64) | (
    b7 as u64)) == u) by (bit_vector)
        requires
            b0 == ((u >> 56u64) & 0xff) as u8,
            b1 == ((u >> 48u64) & 0xff) as u8,
            b2 == ((u >> 40u64) & 0xff) as u8,
            b3 == ((u >> 32u64) & 0xff) as u8,
            b4 == ((u >> 24u64) & 0xff) as u8,
            b5 == ((u >> 16u64) & 0xff) as u8,
            b6 == ((u >> 8u64) & 0xff) as u8,
            b7 == ((u >> 0u64) & 0xff) as u8,
    ;
    assert((u as i64) == v) by (bit_vector)
        requires
            u == v as u64,
    ;
}

fn push_be_bytes(out: &mut Vec<u8>, v: i64)
    ensures
        final(out)@ == old(out)@ + be_bytes(v),
{
    let u = v as u64;
    let mut i: usize = 0;
    while i < 8
        invariant
            0 <= i <= 8,
            u == v as u64,
            out@.len() == old(out)@.len() + i,
            out@.subrange(0, old(out)@.len() as int) == old(out)@,
            forall|j: int| 0 <= j < i ==> out@[old(out)@.len() + j] == be_byte(u, j),
        decreases 8 - i,
    {
        let shift: u64 = (56 - 8 * i) as u64;
        out.push(((u >> shift) & 0xff) as u8);
        i = i + 1;
    }
    assert(out@ =~= old(out)@ + be_bytes(v));
}

fn read_be(b: &[u8], off: usize) -> (v: i64)
    requires
        off + 8 <= b@.len(),
    ensures
        v == be_value(b@, off as int),
{
    let x: u64 = ((b[off] as u64) << 56u64) | ((b[off + 1] as u64) << 48u64) | ((b[off + 2] as u64)
        << 40u64) | ((b[off + 3] as u64) << 32u64) | ((b[off + 4] as u64) << 24u64) | ((b[off
        + 5] as u64) << 16u64) | ((b[off + 6] as u64) << 8u64) | (b[off + 7] as u64);
    x as i64
}

impl CompressedStateEvent {
    /// Pairs a state field with the state point that fills it.
    pub fn new(field_id: i64, point_id: i64) -> (r: Self)
        ensures
            r.field_id == field_id,
            r.point_id == point_id,
    {
        CompressedStateEvent { field_id, point_id }
    }

    /// The id of the state field (event type and state key).
    pub fn field_id(&self) -> (r: i64)
        ensures
            r == self.field_id,
    {
        self.field_id
    }

    /// The id of the state point that fills the field.
    pub fn point_id(&self) -> (r: i64)
        ensures
            r == self.point_id,
    {
        self.point_id
    }

    /// The sixteen stored bytes: the field id, then the point id, each big-endian.
    pub fn as_bytes(&self) -> (r: Vec<u8>)
        ensures
            r@ == encoding(self.field_id, self.point_id),
            r@.len() == 16,
    {
        let mut out: Vec<u8> = Vec::new();
        push_be_bytes(&mut out, self.field_id);
        push_be_bytes(&mut out, self.point_id);
        out
    }

    /// Decodes one stored entry; `None` unless exactly sixteen bytes are given.
    pub fn from_bytes(b: &[u8]) -> (r: Option<Self>)
        ensures
            b@.len() != 16 <==> r is None,
            r matches Some(e) ==> e.field_id == be_value(b@, 0) && e.point_id == be_value(b@, 8),
    {
        if b.len() != 16 {
            return None;
        }
        Some(CompressedStateEvent { field_id: read_be(b, 0), point_id: read_be(b, 8) })
    }

    /// Whether the stored bytes of this entry start with the big-endian bytes of
    /// `field_id`, the test by which an entry of a field is looked up.
    pub fn starts_with_field(&self, field_id: i64) -> (r: bool)
        ensures
            r == (encoding(self.field_id, self.point_id).subrange(0, 8) == be_bytes(field_id)),
    {
        let mine = self.as_bytes();
        let mut probe: Vec<u8> = Vec::new();
        push_be_bytes(&mut probe, field_id);
        assert(probe@ =~= be_bytes(field_id));
        let mut i: usize = 0;
        while i < 8
            invariant
                0 <= i <= 8,
                mine@ == encoding(self.field_id, self.point_id),
                probe@ == be_bytes(field_id),
                forall|j: int| 0 <= j < i ==> mine@[j] == probe@[j],
            decreases 8 - i,
        {
            if mine[i] != probe[i] {
                assert(mine@.subrange(0, 8)[i as int] != be_bytes(field_id)[i as int]);
                return false;
            }
            i = i + 1;
        }
        assert(mine@.subrange(0, 8) =~= probe@);
        true
    }
}

/// Decoding the stored bytes of an entry gives the entry back.
pub proof fn lemma_encoding_roundtrip(field_id: i64, point_id: i64)
    ensures
        encoding(field_id, point_id).len() == 16,
        be_value(encoding(field_id, point_id), 0) == field_id,
        be_value(encoding(field_id, point_id), 8) == point_id,
{
    lemma_be_roundtrip(field_id);
    lemma_be_roundtrip(point_id);
    let e = encoding(field_id, point_id);
    let f = be_bytes(field_id);
    let p = be_bytes(point_id);
    assert(forall|i: int| 0 <= i < 8 ==> e[i] == f[i]);
    assert(forall|i: int| 0 <= i < 8 ==> e[8 + i] == p[i]);
    assert(be_value(e, 0) == be_value(f, 0));
    assert(be_value(e, 8) == be_value(p, 0));
}

/// An entry's bytes start with the bytes of a field id exactly when it is an
/// entry of that field.
pub proof fn lemma_field_prefix(field_id: i64, point_id: i64, probe: i64)
    ensures
        (encoding(field_id, point_id).subrange(0, 8) == be_bytes(probe)) <==> field_id == probe,
{
    let e = encoding(field_id, point_id);
    assert(e.subrange(0, 8) =~= be_bytes(field_id));
    if be_bytes(field_id) == be_bytes(probe) {
        lemma_be_roundtrip(field_id);
        lemma_be_roundtrip(probe);
    }
}

} // verus!
