use vstd::prelude::*;
use vstd::bytes::*;
use vstd::slice::slice_subrange;

verus! {

broadcast use vstd::seq_lib::group_seq_properties;

/// `s` with the bytes `w` written at position `pos`.
pub open spec fn write_at(s: Seq<u8>, pos: int, w: Seq<u8>) -> Seq<u8> {
    s.subrange(0, pos) + w + s.subrange(pos + w.len(), s.len() as int)
}

/// The little-endian `u16` stored at `pos`.
pub open spec fn u16_at(s: Seq<u8>, pos: int) -> u16 {
    spec_u16_from_le_bytes(s.subrange(pos, pos + 2))
}

/// The little-endian `u64` stored at `pos`.
pub open spec fn u64_at(s: Seq<u8>, pos: int) -> u64 {
    spec_u64_from_le_bytes(s.subrange(pos, pos + 8))
}

/// The little-endian `u32` stored at `pos`.
pub open spec fn u32_at(s: Seq<u8>, pos: int) -> u32 {
    spec_u32_from_le_bytes(s.subrange(pos, pos + 4))
}

/// A write leaves a range that it does not touch as it was.
pub proof fn lemma_write_at_outside(s: Seq<u8>, pos: int, w: Seq<u8>, a: int, b: int)
    requires
        0 <= pos,
        pos + w.len() <= s.len(),
        0 <= a <= b <= s.len(),
        b <= pos || pos + w.len() <= a,
    ensures
        write_at(s, pos, w).subrange(a, b) == s.subrange(a, b),
        write_at(s, pos, w).len() == s.len(),
{
    assert(write_at(s, pos, w).subrange(a, b) =~= s.subrange(a, b));
}

/// The written range holds what was written.
pub proof fn lemma_write_at_inside(s: Seq<u8>, pos: int, w: Seq<u8>)
    requires
        0 <= pos,
        pos + w.len() <= s.len(),
    ensures
        write_at(s, pos, w).subrange(pos, pos + w.len()) == w,
        write_at(s, pos, w).len() == s.len(),
{
    assert(write_at(s, pos, w).subrange(pos, pos + w.len()) =~= w);
}

/// A write at `pos` leaves every byte and stored integer outside the written
/// range as it was.
pub proof fn lemma_write_frame(s: Seq<u8>, pos: int, w: Seq<u8>)
    requires
        0 <= pos,
        pos + w.len() <= s.len(),
    ensures
        write_at(s, pos, w).len() == s.len(),
        forall|a: int|
            #![trigger u16_at(write_at(s, pos, w), a)]
            0 <= a && a + 2 <= s.len() && (a + 2 <= pos || pos + w.len() <= a) ==> u16_at(
                write_at(s, pos, w),
                a,
            ) == u16_at(s, a),
        forall|a: int|
            #![trigger u32_at(write_at(s, pos, w), a)]
            0 <= a && a + 4 <= s.len() && (a + 4 <= pos || pos + w.len() <= a) ==> u32_at(
                write_at(s, pos, w),
                a,
            ) == u32_at(s, a),
        forall|a: int|
            #![trigger u64_at(write_at(s, pos, w), a)]
            0 <= a && a + 8 <= s.len() && (a + 8 <= pos || pos + w.len() <= a) ==> u64_at(
                write_at(s, pos, w),
                a,
            ) == u64_at(s, a),
        forall|a: int|
            #![trigger write_at(s, pos, w)[a]]
            0 <= a < s.len() && (a < pos || pos + w.len() <= a) ==> write_at(s, pos, w)[a] == s[a],
{
    let t = write_at(s, pos, w);
    assert forall|a: int| 0 <= a && a + 2 <= s.len() && (a + 2 <= pos || pos + w.len() <= a) implies u16_at(t, a) == u16_at(s, a) by {
        lemma_write_at_outside(s, pos, w, a, a + 2);
    }
    assert forall|a: int| 0 <= a && a + 4 <= s.len() && (a + 4 <= pos || pos + w.len() <= a) implies u32_at(t, a) == u32_at(s, a) by {
        lemma_write_at_outside(s, pos, w, a, a + 4);
    }
    assert forall|a: int| 0 <= a && a + 8 <= s.len() && (a + 8 <= pos || pos + w.len() <= a) implies u64_at(t, a) == u64_at(s, a) by {
        lemma_write_at_outside(s, pos, w, a, a + 8);
    }
}

/// A stored integer reads back as written.
pub proof fn lemma_write_read(s: Seq<u8>, pos: int)
    requires
        0 <= pos,
    ensures
        forall|v: u16| pos + 2 <= s.len() ==> #[trigger] u16_at(write_at(s, pos, spec_u16_to_le_bytes(v)), pos) == v,
        forall|v: u32| pos + 4 <= s.len() ==> #[trigger] u32_at(write_at(s, pos, spec_u32_to_le_bytes(v)), pos) == v,
        forall|v: u64| pos + 8 <= s.len() ==> #[trigger] u64_at(write_at(s, pos, spec_u64_to_le_bytes(v)), pos) == v,
{
    lemma_auto_spec_u16_to_from_le_bytes();
    lemma_auto_spec_u32_to_from_le_bytes();
    lemma_auto_spec_u64_to_from_le_bytes();
    assert forall|v: u16| pos + 2 <= s.len() implies #[trigger] u16_at(write_at(s, pos, spec_u16_to_le_bytes(v)), pos) == v by {
        lemma_write_at_inside(s, pos, spec_u16_to_le_bytes(v));
    }
    assert forall|v: u32| pos + 4 <= s.len() implies #[trigger] u32_at(write_at(s, pos, spec_u32_to_le_bytes(v)), pos) == v by {
        lemma_write_at_inside(s, pos, spec_u32_to_le_bytes(v));
    }
    assert forall|v: u64| pos + 8 <= s.len() implies #[trigger] u64_at(write_at(s, pos, spec_u64_to_le_bytes(v)), pos) == v by {
        lemma_write_at_inside(s, pos, spec_u64_to_le_bytes(v));
    }
}

/// Copies `w` into `data` at `pos`.
pub fn write_bytes(data: &mut Vec<u8>, pos: usize, w: &[u8])
    requires
        pos + w@.len() <= old(data)@.len(),
    ensures
        final(data)@ == write_at(old(data)@, pos as int, w@),
        final(data)@.len() == old(data)@.len(),
{
    let ghost orig = data@;
    let n = data.len();
    let mut i: usize = 0;
    while i < w.len()
        invariant
            i <= w@.len(),
            pos + w@.len() <= orig.len(),
            n == orig.len(),
            data@.len() == orig.len(),
            forall|k: int| 0 <= k < pos ==> data@[k] == orig[k],
            forall|k: int| 0 <= k < i ==> data@[pos + k] == w@[k],
            forall|k: int| pos + i <= k < orig.len() ==> data@[k] == orig[k],
        decreases w@.len() - i,
    {
        data.set(pos + i, w[i]);
        i = i + 1;
    }
    assert(data@ =~= write_at(orig, pos as int, w@));
}

/// Stores `v` little endian at `pos`.
pub fn write_u16(data: &mut Vec<u8>, pos: usize, v: u16)
    requires
        pos + 2 <= old(data)@.len(),
    ensures
        final(data)@ == write_at(old(data)@, pos as int, spec_u16_to_le_bytes(v)),
        final(data)@.len() == old(data)@.len(),
{
    let b = u16_to_le_bytes(v);
    write_bytes(data, pos, b.as_slice());
}

/// Stores `v` little endian at `pos`.
pub fn write_u64(data: &mut Vec<u8>, pos: usize, v: u64)
    requires
        pos + 8 <= old(data)@.len(),
    ensures
        final(data)@ == write_at(old(data)@, pos as int, spec_u64_to_le_bytes(v)),
        final(data)@.len() == old(data)@.len(),
{
    let b = u64_to_le_bytes(v);
    write_bytes(data, pos, b.as_slice());
}

/// Stores `v` little endian at `pos`.
pub fn write_u32(data: &mut Vec<u8>, pos: usize, v: u32)
    requires
        pos + 4 <= old(data)@.len(),
    ensures
        final(data)@ == write_at(old(data)@, pos as int, spec_u32_to_le_bytes(v)),
        final(data)@.len() == old(data)@.len(),
{
    let b = u32_to_le_bytes(v);
    write_bytes(data, pos, b.as_slice());
}

/// The little-endian `u16` at `pos`.
pub fn read_u16(data: &[u8], pos: usize) -> (r: u16)
    requires
        pos + 2 <= data@.len(),
    ensures
        r == u16_at(data@, pos as int),
{
    let _n = data.len();
    u16_from_le_bytes(slice_subrange(data, pos, pos + 2))
}

/// The little-endian `u64` at `pos`.
pub fn read_u64(data: &[u8], pos: usize) -> (r: u64)
    requires
        pos + 8 <= data@.len(),
    ensures
        r == u64_at(data@, pos as int),
{
    let _n = data.len();
    u64_from_le_bytes(slice_subrange(data, pos, pos + 8))
}

/// The little-endian `u32` at `pos`.
pub fn read_u32(data: &[u8], pos: usize) -> (r: u32)
    requires
        pos + 4 <= data@.len(),
    ensures
        r == u32_at(data@, pos as int),
{
    let _n = data.len();
    u32_from_le_bytes(slice_subrange(data, pos, pos + 4))
}

/// Appends `w` to `buf`.
pub fn push_all(buf: &mut Vec<u8>, w: &[u8])
    ensures
        final(buf)@ == old(buf)@ + w@,
{
    let ghost b0 = buf@;
    let mut i: usize = 0;
    while i < w.len()
        invariant
            i <= w@.len(),
            buf@ == b0 + w@.subrange(0, i as int),
        decreases w@.len() - i,
    {
        buf.push(w[i]);
        i = i + 1;
        proof {
            assert(buf@ =~= b0 + w@.subrange(0, i as int));
        }
    }
    assert(w@.subrange(0, w@.len() as int) =~= w@);
}

} // verus!
