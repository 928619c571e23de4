//! PackBits run-length decoding of one scanline.

use vstd::prelude::*;

verus! {

/// The smaller of two integers.
pub open spec fn min_int(a: int, b: int) -> int {
    if a <= b {
        a
    } else {
        b
    }
}

/// The bytes that a PackBits stream `src` yields when at most `room` bytes
/// may be produced.
///
/// A header byte below 128 announces that many plus one literal bytes; one
/// above 128 announces `257 - header` copies of the byte that follows; 128
/// itself is skipped.  Decoding stops as soon as the stream or the room is
/// used up, so an over-long stream is cut at `room` and an under-long one
/// yields fewer than `room` bytes.
pub open spec fn unpack(src: Seq<u8>, room: nat) -> Seq<u8>
    decreases src.len(),
{
    if room == 0 || src.len() == 0 {
        Seq::<u8>::empty()
    } else {
        let header = src[0] as int;
        if header < 128 {
            let take = min_int(min_int(header + 1, room as int), src.len() - 1);
            src.subrange(1, 1 + take) + unpack(src.skip(1 + take), (room - take) as nat)
        } else if header > 128 {
            if src.len() < 2 {
                Seq::<u8>::empty()
            } else {
                let count = min_int(257 - header, room as int);
                Seq::new(count as nat, |i: int| src[1]) + unpack(
                    src.skip(2),
                    (room - count) as nat,
                )
            }
        } else {
            unpack(src.skip(1), room)
        }
    }
}

/// Whether `enc` is a well-formed PackBits stream for exactly `data`: a
/// sequence of complete literal packets, run packets and skipped bytes whose
/// payloads, in order, make up `data`.
pub open spec fn is_encoding(enc: Seq<u8>, data: Seq<u8>) -> bool
    decreases enc.len(),
{
    if enc.len() == 0 {
        data.len() == 0
    } else {
        let header = enc[0] as int;
        if header < 128 {
            let k = header + 1;
            &&& enc.len() >= 1 + k
            &&& data.len() >= k
            &&& data.subrange(0, k) == enc.subrange(1, 1 + k)
            &&& is_encoding(enc.skip(1 + k), data.skip(k))
        } else if header > 128 {
            let k = 257 - header;
            &&& enc.len() >= 2
            &&& data.len() >= k
            &&& data.subrange(0, k) == Seq::new(k as nat, |i: int| enc[1])
            &&& is_encoding(enc.skip(2), data.skip(k))
        } else {
            is_encoding(enc.skip(1), data)
        }
    }
}

/// Decoding never yields more than the room allows.
pub proof fn lemma_unpack_len(src: Seq<u8>, room: nat)
    ensures
        unpack(src, room).len() <= room,
    decreases src.len(),
{
    if room == 0 || src.len() == 0 {
    } else {
        let header = src[0] as int;
        if header < 128 {
            let take = min_int(min_int(header + 1, room as int), src.len() - 1);
            lemma_unpack_len(src.skip(1 + take), (room - take) as nat);
        } else if header > 128 {
            if src.len() >= 2 {
                let count = min_int(257 - header, room as int);
                lemma_unpack_len(src.skip(2), (room - count) as nat);
            }
        } else {
            lemma_unpack_len(src.skip(1), room);
        }
    }
}

/// Round trip: a well-formed PackBits stream for `data` decodes, with room
/// for exactly `data.len()` bytes, back to `data`.
pub proof fn lemma_unpack_round_trip(enc: Seq<u8>, data: Seq<u8>)
    requires
        is_encoding(enc, data),
    ensures
        unpack(enc, data.len()) == data,
    decreases enc.len(),
{
    if data.len() == 0 || enc.len() == 0 {
        assert(unpack(enc, data.len()) =~= data);
    } else {
        let header = enc[0] as int;
        if header < 128 {
            let k = header + 1;
            lemma_unpack_round_trip(enc.skip(1 + k), data.skip(k));
            assert(data =~= data.subrange(0, k) + data.skip(k));
        } else if header > 128 {
            let k = 257 - header;
            lemma_unpack_round_trip(enc.skip(2), data.skip(k));
            assert(data =~= data.subrange(0, k) + data.skip(k));
        } else {
            lemma_unpack_round_trip(enc.skip(1), data);
        }
    }
}

/// Decodes the PackBits stream in `src[src_start .. src_start + src_len]`
/// into `dst[dst_start .. dst_start + dst_len]`.
///
/// The decoded bytes are written from `dst_start` on; every other byte of
/// `dst`, including the tail of the window that an under-long stream does
/// not reach, keeps its value.
#[verifier::rlimit(30)]
pub fn decode_packbits(
    src: &[u8],
    src_start: usize,
    src_len: usize,
    dst: &mut Vec<u8>,
    dst_start: usize,
    dst_len: usize,
)
    requires
        src_start + src_len <= src.len(),
        dst_start + dst_len <= old(dst).len(),
    ensures
        final(dst)@.len() == old(dst)@.len(),
        ({
            let out = unpack(
                src@.subrange(src_start as int, src_start + src_len),
                dst_len as nat,
            );
            final(dst)@ == old(dst)@.subrange(0, dst_start as int) + out + old(dst)@.subrange(
                dst_start + out.len(),
                old(dst)@.len() as int,
            )
        }),
{
    let mut s: usize = src_start;
    let mut d: usize = dst_start;
    let src_end: usize = src_start + src_len;
    let dst_end: usize = dst_start + dst_len;
    let ghost window = src@.subrange(src_start as int, src_end as int);
    let ghost before = dst@;
    proof {
        assert(window.skip(0) =~= window);
        assert(dst@.subrange(dst_start as int, d as int) + unpack(window, dst_len as nat) =~= unpack(
            window,
            dst_len as nat,
        ));
    }
    while d < dst_end && s < src_end
        invariant
            src_start <= s <= src_end <= src@.len(),
            dst_start <= d <= dst_end <= dst@.len(),
            dst_end == dst_start + dst_len,
            dst@.len() == before.len(),
            window == src@.subrange(src_start as int, src_end as int),
            dst@.subrange(0, dst_start as int) == before.subrange(0, dst_start as int),
            dst@.subrange(d as int, dst@.len() as int) == before.subrange(
                d as int,
                before.len() as int,
            ),
            unpack(window, dst_len as nat) == dst@.subrange(dst_start as int, d as int) + unpack(
                window.skip(s - src_start),
                (dst_end - d) as nat,
            ),
        decreases src_end - s,
    {
        let ghost rest = window.skip(s - src_start);
        let ghost room = (dst_end - d) as nat;
        let ghost done = dst@.subrange(dst_start as int, d as int);
        let ghost d0 = d;
        let header: u8 = src[s];
        assert(rest[0] == header);
        s += 1;
        if header < 128 {
            let count: usize = header as usize + 1;
            let end: usize = if dst_end - d < count {
                dst_end
            } else {
                d + count
            };
            let ghost s0 = s;
            while d < end && s < src_end
                invariant
                    d0 <= d <= end <= dst_end <= dst@.len(),
                    s0 <= s <= src_end <= src@.len(),
                    d - d0 == s - s0,
                    dst@.len() == before.len(),
                    dst@.subrange(0, dst_start as int) == before.subrange(0, dst_start as int),
                    dst@.subrange(d as int, dst@.len() as int) == before.subrange(
                        d as int,
                        before.len() as int,
                    ),
                    dst@.subrange(dst_start as int, d0 as int) == done,
                    dst@.subrange(d0 as int, d as int) == src@.subrange(s0 as int, s as int),
                    dst_start <= d0,
                decreases end - d,
            {
                let ghost prev = dst@;
                dst[d] = src[s];
                proof {
                    assert(dst@.subrange(0, dst_start as int) =~= prev.subrange(
                        0,
                        dst_start as int,
                    ));
                    assert(dst@.subrange(d + 1, dst@.len() as int) =~= prev.subrange(
                        d as int,
                        prev.len() as int,
                    ).skip(1));
                    assert(before.subrange(d + 1, before.len() as int) =~= before.subrange(
                        d as int,
                        before.len() as int,
                    ).skip(1));
                    assert(dst@.subrange(dst_start as int, d0 as int) =~= prev.subrange(
                        dst_start as int,
                        d0 as int,
                    ));
                    assert(dst@.subrange(d0 as int, d + 1) =~= prev.subrange(d0 as int, d as int)
                        + seq![src@[s as int]]);
                    assert(src@.subrange(s0 as int, s + 1) =~= src@.subrange(s0 as int, s as int)
                        + seq![src@[s as int]]);
                }
                d += 1;
                s += 1;
            }
            proof {
                let take = min_int(min_int(header as int + 1, room as int), rest.len() - 1);
                assert(d - d0 == take);
                assert(rest.subrange(1, 1 + take) =~= src@.subrange(s0 as int, s as int));
                assert(rest.skip(1 + take) =~= window.skip(s - src_start));
                assert(dst@.subrange(dst_start as int, d as int) =~= done + dst@.subrange(
                    d0 as int,
                    d as int,
                ));
            }
        } else if header > 128 {
            let count: usize = 257 - header as usize;
            if s < src_end {
                let val: u8 = src[s];
                s += 1;
                let end: usize = if dst_end - d < count {
                    dst_end
                } else {
                    d + count
                };
                while d < end
                    invariant
                        d0 <= d <= end <= dst_end <= dst@.len(),
                        dst_start <= d0,
                        dst@.len() == before.len(),
                        dst@.subrange(0, dst_start as int) == before.subrange(
                            0,
                            dst_start as int,
                        ),
                        dst@.subrange(d as int, dst@.len() as int) == before.subrange(
                            d as int,
                            before.len() as int,
                        ),
                        dst@.subrange(dst_start as int, d0 as int) == done,
                        dst@.subrange(d0 as int, d as int) == Seq::new(
                            (d - d0) as nat,
                            |i: int| val,
                        ),
                    decreases end - d,
                {
                    let ghost prev = dst@;
                    dst[d] = val;
                    proof {
                        assert(dst@.subrange(0, dst_start as int) =~= prev.subrange(
                            0,
                            dst_start as int,
                        ));
                        assert(dst@.subrange(d + 1, dst@.len() as int) =~= prev.subrange(
                            d as int,
                            prev.len() as int,
                        ).skip(1));
                        assert(before.subrange(d + 1, before.len() as int) =~= before.subrange(
                            d as int,
                            before.len() as int,
                        ).skip(1));
                        assert(dst@.subrange(dst_start as int, d0 as int) =~= prev.subrange(
                            dst_start as int,
                            d0 as int,
                        ));
                        assert(dst@.subrange(d0 as int, d + 1) =~= Seq::new(
                            (d + 1 - d0) as nat,
                            |i: int| val,
                        )) by {
                            assert(forall|i: int|
                                d0 <= i < d ==> dst@[i] == prev.subrange(d0 as int, d as int)[i
                                    - d0]);
                        }
                    }
                    d += 1;
                }
                proof {
                    let run = min_int(257 - header as int, room as int);
                    assert(d - d0 == run);
                    assert(rest[1] == val);
                    assert(Seq::new(run as nat, |i: int| rest[1]) =~= dst@.subrange(
                        d0 as int,
                        d as int,
                    ));
                    assert(rest.skip(2) =~= window.skip(s - src_start));
                    assert(dst@.subrange(dst_start as int, d as int) =~= done + dst@.subrange(
                        d0 as int,
                        d as int,
                    ));
                }
            } else {
                proof {
                    assert(rest.len() == 1);
                    assert(unpack(window.skip(s - src_start), room) =~= Seq::<u8>::empty());
                }
            }
        } else {
            proof {
                assert(rest.skip(1) =~= window.skip(s - src_start));
            }
        }
    }
    proof {
        let out = unpack(window, dst_len as nat);
        assert(unpack(window.skip(s - src_start), (dst_end - d) as nat) =~= Seq::<u8>::empty());
        assert(out =~= dst@.subrange(dst_start as int, d as int));
        assert(dst@ =~= before.subrange(0, dst_start as int) + out + before.subrange(
            dst_start + out.len(),
            before.len() as int,
        ));
    }
}

} // verus!
