//! Packed little-endian halves: a buffer of bytes read as 16-bit patterns and
//! written back.

use vstd::prelude::*;

verus! {

/// The 16-bit pattern whose low byte is `low` and whose high byte is `high`.
pub open spec fn join_bytes(low: u8, high: u8) -> u16 {
    (low as int + 256 * (high as int)) as u16
}

/// The low byte of a 16-bit pattern.
pub open spec fn low_byte(h: u16) -> u8 {
    (h % 256) as u8
}

/// The high byte of a 16-bit pattern.
pub open spec fn high_byte(h: u16) -> u8 {
    (h / 256) as u8
}

/// The patterns that a buffer holds: one for each whole pair of bytes, low
/// byte first. A trailing single byte is not read.
pub open spec fn halves_of(bytes: Seq<u8>) -> Seq<u16> {
    Seq::new((bytes.len() / 2) as nat, |i: int| join_bytes(bytes[2 * i], bytes[2 * i + 1]))
}

/// The buffer that holds the given patterns: two bytes for each, low byte
/// first.
pub open spec fn bytes_of(halves: Seq<u16>) -> Seq<u8> {
    Seq::new(
        2 * halves.len(),
        |t: int|
            if t % 2 == 0 {
                low_byte(halves[t / 2])
            } else {
                high_byte(halves[t / 2])
            },
    )
}

/// Reads a buffer as packed little-endian halves.
pub fn read_fp16_le_slice(bytes: &[u8]) -> (halves: Vec<u16>)
    ensures
        halves@ == halves_of(bytes@),
{
    let count: usize = bytes.len() / 2;
    let mut halves: Vec<u16> = Vec::with_capacity(count);
    let mut i: usize = 0;
    while i < count
        invariant
            count == bytes@.len() / 2,
            bytes@.len() <= usize::MAX,
            i <= count,
            halves@ == halves_of(bytes@).take(i as int),
        decreases count - i,
    {
        let low: u8 = bytes[2 * i];
        let high: u8 = bytes[2 * i + 1];
        let h: u16 = low as u16 + 256 * (high as u16);
        halves.push(h);
        i += 1;
        assert(halves@ == halves_of(bytes@).take(i as int));
    }
    halves
}

/// Writes halves into the front of a buffer as packed little-endian pairs,
/// leaving the bytes behind them as they were.
pub fn write_fp16_le_slice(buf: &mut [u8], data: &[u16])
    requires
        2 * data@.len() <= old(buf)@.len(),
    ensures
        final(buf)@.len() == old(buf)@.len(),
        final(buf)@.take(2 * data@.len() as int) == bytes_of(data@),
        final(buf)@.skip(2 * data@.len() as int) == old(buf)@.skip(2 * data@.len() as int),
{
    let count: usize = data.len();
    let room: usize = buf.len();
    let mut i: usize = 0;
    while i < count
        invariant
            count == data@.len(),
            room == buf@.len(),
            i <= count,
            2 * count <= buf@.len(),
            buf@.len() == old(buf)@.len(),
            buf@.take(2 * i) == bytes_of(data@).take(2 * i),
            buf@.skip(2 * i) == old(buf)@.skip(2 * i),
        decreases count - i,
    {
        let h: u16 = data[i];
        let o: usize = i * 2;
        let ghost before = buf@;
        buf[o] = (h % 256) as u8;
        buf[o + 1] = (h / 256) as u8;
        i += 1;
        proof {
            let want = bytes_of(data@);
            let done = buf@.take(2 * i);
            let rest = buf@.skip(2 * i);
            let kept = old(buf)@.skip(2 * i);
            assert forall|t: int| 0 <= t < done.len() implies done[t] == want.take(2 * i)[t] by {
                if t < o {
                    assert(buf@[t] == before.take(o as int)[t]);
                    assert(want[t] == want.take(o as int)[t]);
                }
            }
            assert forall|t: int| 0 <= t < rest.len() implies rest[t] == kept[t] by {
                assert(buf@[t + 2 * i] == before.skip(o as int)[t + 2]);
            }
            assert(done == want.take(2 * i));
            assert(rest == kept);
        }
    }
    assert(bytes_of(data@).take(2 * count) == bytes_of(data@));
}

/// Packing and reading back gives the same patterns.
pub proof fn lemma_read_after_write(halves: Seq<u16>)
    ensures
        halves_of(bytes_of(halves)) == halves,
{
    let back = halves_of(bytes_of(halves));
    assert(back.len() == halves.len());
    assert forall|i: int| 0 <= i < halves.len() implies back[i] == halves[i] by {
        let h = halves[i];
        assert(bytes_of(halves)[2 * i] == low_byte(h));
        assert(bytes_of(halves)[2 * i + 1] == high_byte(h));
    }
}

/// Reading and packing again gives the same bytes, up to the trailing single
/// byte of a buffer of odd length.
pub proof fn lemma_write_after_read(bytes: Seq<u8>)
    ensures
        bytes_of(halves_of(bytes)) == bytes.take(2 * (bytes.len() as int / 2)),
        bytes.len() % 2 == 0 ==> bytes_of(halves_of(bytes)) == bytes,
{
    let back = bytes_of(halves_of(bytes));
    let whole = bytes.take(2 * (bytes.len() as int / 2));
    assert(back.len() == whole.len());
    assert forall|t: int| 0 <= t < back.len() implies back[t] == whole[t] by {
        let i = t / 2;
        let h = halves_of(bytes)[i];
        assert(h == join_bytes(bytes[2 * i], bytes[2 * i + 1]));
    }
    if bytes.len() % 2 == 0 {
        assert(whole == bytes);
    }
}

} // verus!
