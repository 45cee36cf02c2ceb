//! Transcoding of a TAP tape image (length-prefixed raw blocks) into a TZX
//! tape image (a fixed signature header followed by tagged, timed blocks).
//!
//! The input is a contiguous byte buffer holding back-to-back source blocks,
//! each a 2-byte little-endian length prefix `L` followed by `L` payload
//! bytes. The output begins with the fixed 10-byte TZX header; every source
//! block with `L > 0` becomes one standard-speed data block: the tag `0x10`,
//! a 2-byte little-endian pause of 1000 ms, the 2-byte length prefix copied
//! verbatim, and the payload copied verbatim. Empty source blocks (`L == 0`)
//! are counted but emit nothing.

use vstd::prelude::*;

verus! {

/// Failure of a conversion: the input ended in the middle of a length
/// prefix, or a length prefix declared more payload bytes than remain in
/// the buffer. `offset` is the position of the offending length prefix.
#[derive(Clone, Copy, Debug, PartialEq, Eq, Structural)]
pub enum ConversionError {
    MalformedInput { offset: usize },
}

/// The unsigned 16-bit value encoded little-endian by the bytes `lo`, `hi`.
pub open spec fn le_u16(lo: u8, hi: u8) -> u16 {
    (lo + 256 * hi) as u16
}

/// The fixed 10-byte TZX file header: the signature "ZXTape!", the
/// terminator byte 0x1A, then major version 1 and minor version 20.
pub open spec fn tzx_header() -> Seq<u8> {
    seq![0x5au8, 0x58u8, 0x54u8, 0x61u8, 0x70u8, 0x65u8, 0x21u8, 0x1au8, 1u8, 20u8]
}

/// The bytes of one TZX standard-speed data block for the source block of
/// `tap` whose payload starts at `pos` and has length `l`: the tag 0x10, the
/// pause 1000 ms little-endian (0xE8, 0x03), the 2-byte length prefix copied
/// verbatim from `tap[pos - 2 .. pos]`, then the payload copied verbatim.
pub open spec fn block_bytes(tap: Seq<u8>, pos: int, l: u16) -> Seq<u8> {
    seq![0x10u8, 0xe8u8, 0x03u8] + tap.subrange(pos - 2, pos) + tap.subrange(pos, pos + l)
}

/// What scanning the source blocks of an input buffer yields: either every
/// block decoded, with the emitted block bytes and the number of blocks
/// scanned, or a malformed buffer, with the position of the offending length
/// prefix and the block bytes emitted before the failure.
pub ghost enum ScanOutcome {
    Complete { out: Seq<u8>, count: nat },
    Malformed { offset: int, out: Seq<u8> },
}

/// Prefixes an outcome with `w` already-emitted bytes and `c` already-scanned
/// blocks.
pub open spec fn prepend(w: Seq<u8>, c: nat, rest: ScanOutcome) -> ScanOutcome {
    match rest {
        ScanOutcome::Complete { out, count } => ScanOutcome::Complete {
            out: w + out,
            count: c + count,
        },
        ScanOutcome::Malformed { offset, out } => ScanOutcome::Malformed {
            offset,
            out: w + out,
        },
    }
}

/// Scans the source blocks of `tap` from position `pos` to the end of the
/// buffer: reads a 2-byte little-endian length prefix `L`, then skips the
/// `L` payload bytes, emitting one TZX block for every block with `L > 0`
/// and nothing for an empty block. The scan fails at the prefix position
/// when fewer than 2 bytes remain for a prefix, or when a prefix declares
/// more payload bytes than remain.
pub open spec fn scan(tap: Seq<u8>, pos: int) -> ScanOutcome
    recommends
        0 <= pos,
    decreases tap.len() - pos,
{
    if pos >= tap.len() {
        ScanOutcome::Complete { out: Seq::empty(), count: 0 }
    } else if pos + 2 > tap.len() {
        ScanOutcome::Malformed { offset: pos, out: Seq::empty() }
    } else {
        let l = le_u16(tap[pos], tap[pos + 1]) as int;
        if l == 0 {
            prepend(Seq::empty(), 1, scan(tap, pos + 2))
        } else if pos + 2 + l > tap.len() {
            ScanOutcome::Malformed { offset: pos, out: Seq::empty() }
        } else {
            prepend(block_bytes(tap, pos + 2, le_u16(tap[pos], tap[pos + 1])), 1, scan(tap, pos + 2 + l))
        }
    }
}

/// The full byte stream that converting `tap` writes to its sink: the fixed
/// header followed by the emitted blocks, whether the scan completes or
/// fails partway. A function of the input bytes alone.
pub open spec fn conversion_output(tap: Seq<u8>) -> Seq<u8> {
    match scan(tap, 0) {
        ScanOutcome::Complete { out, .. } => tzx_header() + out,
        ScanOutcome::Malformed { out, .. } => tzx_header() + out,
    }
}

/// Reads a little-endian u16 at position `pos` of `input`.
///
/// Fails with `MalformedInput { offset: pos }` when fewer than 2 bytes
/// remain there.
pub fn read_le_u16(input: &[u8], pos: usize) -> (r: Result<u16, ConversionError>)
    ensures
        pos + 2 <= input@.len() ==> (r matches Ok(v) && v == le_u16(
            input@[pos as int],
            input@[pos + 1],
        )),
        pos + 2 > input@.len() ==> r == Err::<u16, _>(
            ConversionError::MalformedInput { offset: pos },
        ),
{
    if pos >= input.len() || input.len() - pos < 2 {
        return Err(ConversionError::MalformedInput { offset: pos });
    }
    let lo = input[pos];
    let hi = input[pos + 1];
    Ok((lo as u16) + 256 * (hi as u16))
}

/// Appends the fixed 10-byte TZX file header to `out`.
pub fn write_tzx_header(out: &mut Vec<u8>)
    ensures
        final(out)@ == old(out)@ + tzx_header(),
{
    out.push(0x5a);
    out.push(0x58);
    out.push(0x54);
    out.push(0x61);
    out.push(0x70);
    out.push(0x65);
    out.push(0x21);
    out.push(0x1a);
    out.push(1);
    out.push(20);
    proof {
        assert(out@ =~= old(out)@ + tzx_header());
    }
}

/// Appends one TZX standard-speed data block to `out`: 3 header bytes, the
/// 2-byte length prefix copied verbatim from `mem[pos - 2 .. pos]`, then the
/// `block_len` payload bytes copied verbatim from `mem[pos ..]`.
pub fn write_tzx_block(mem: &[u8], pos: usize, block_len: u16, out: &mut Vec<u8>)
    requires
        2 <= pos,
        pos + block_len <= mem@.len(),
    ensures
        final(out)@ == old(out)@ + block_bytes(mem@, pos as int, block_len),
{
    out.push(0x10);
    out.push(0xe8);
    out.push(0x03);
    out.push(mem[pos - 2]);
    out.push(mem[pos - 1]);
    let n: usize = mem.len();
    let mut i: usize = 0;
    while i < block_len as usize
        invariant
            i <= block_len,
            2 <= pos,
            n == mem@.len(),
            pos + block_len <= mem@.len(),
            out@ == old(out)@ + seq![0x10u8, 0xe8u8, 0x03u8, mem@[pos - 2], mem@[pos - 1]]
                + mem@.subrange(pos as int, pos + i),
        decreases block_len - i,
    {
        out.push(mem[pos + i]);
        proof {
            assert(mem@.subrange(pos as int, pos + i + 1) =~= mem@.subrange(pos as int, pos + i)
                .push(mem@[pos + i]));
            assert(out@ =~= old(out)@ + seq![0x10u8, 0xe8u8, 0x03u8, mem@[pos - 2], mem@[pos - 1]]
                + mem@.subrange(pos as int, pos + i + 1));
        }
        i = i + 1;
    }
    proof {
        assert(out@ =~= old(out)@ + block_bytes(mem@, pos as int, block_len));
    }
}

proof fn lemma_prepend_nothing(rest: ScanOutcome)
    ensures
        prepend(Seq::empty(), 0, rest) == rest,
{
    match rest {
        ScanOutcome::Complete { out, count } => {
            assert(Seq::empty() + out =~= out);
        },
        ScanOutcome::Malformed { offset, out } => {
            assert(Seq::empty() + out =~= out);
        },
    }
}

proof fn lemma_prepend_prepend(w1: Seq<u8>, c1: nat, w2: Seq<u8>, c2: nat, rest: ScanOutcome)
    ensures
        prepend(w1, c1, prepend(w2, c2, rest)) == prepend(w1 + w2, c1 + c2, rest),
{
    match rest {
        ScanOutcome::Complete { out, count } => {
            assert(w1 + (w2 + out) =~= (w1 + w2) + out);
        },
        ScanOutcome::Malformed { offset, out } => {
            assert(w1 + (w2 + out) =~= (w1 + w2) + out);
        },
    }
}

/// Converts the TAP bytes of `tap` to TZX format, appending to `tzx`.
///
/// The fixed 10-byte header is written first, unconditionally; then one
/// standard-speed data block is emitted per non-empty source block, in
/// order. Returns the number of source blocks scanned, counting empty
/// blocks, exactly when the whole buffer decodes as back-to-back blocks;
/// fails with `MalformedInput` at the position of the first length prefix
/// that is truncated or declares more payload than remains. Whether the
/// conversion succeeds or fails, the bytes appended are exactly
/// `conversion_output(tap@)`.
pub fn tap2tzx(tap: &[u8], tzx: &mut Vec<u8>) -> (r: Result<usize, ConversionError>)
    ensures
        final(tzx)@ == old(tzx)@ + conversion_output(tap@),
        (match scan(tap@, 0) {
            ScanOutcome::Complete { out, count } => r matches Ok(c) && c as nat == count,
            ScanOutcome::Malformed { offset, out } => r matches Err(e) && e matches
                ConversionError::MalformedInput { offset: o } && o as int == offset,
        }),
{
    let size: usize = tap.len();
    write_tzx_header(tzx);

    let mut pos: usize = 0;
    let mut block_count: usize = 0;
    let ghost mut written: Seq<u8> = Seq::empty();

    proof {
        lemma_prepend_nothing(scan(tap@, 0));
        assert(tzx@ =~= old(tzx)@ + tzx_header() + written);
    }

    while pos < size
        invariant
            size == tap@.len(),
            pos <= size,
            2 * block_count <= pos,
            tzx@ == old(tzx)@ + tzx_header() + written,
            scan(tap@, 0) == prepend(written, block_count as nat, scan(tap@, pos as int)),
        decreases size - pos,
    {
        let block_len = match read_le_u16(tap, pos) {
            Ok(v) => v,
            Err(e) => {
                proof {
                    assert(scan(tap@, pos as int) == (ScanOutcome::Malformed {
                        offset: pos as int,
                        out: Seq::<u8>::empty(),
                    }));
                    assert(written + Seq::<u8>::empty() =~= written);
                }
                return Err(e);
            },
        };
        let ghost prefix_pos: int = pos as int;
        pos = pos + 2;
        if block_len != 0 {
            if block_len as usize > size - pos {
                proof {
                    assert(scan(tap@, prefix_pos) == (ScanOutcome::Malformed {
                        offset: prefix_pos,
                        out: Seq::<u8>::empty(),
                    }));
                    assert(written + Seq::<u8>::empty() =~= written);
                }
                return Err(ConversionError::MalformedInput { offset: pos - 2 });
            }
            write_tzx_block(tap, pos, block_len, tzx);
            proof {
                lemma_prepend_prepend(
                    written,
                    block_count as nat,
                    block_bytes(tap@, pos as int, block_len),
                    1,
                    scan(tap@, pos + block_len),
                );
                written = written + block_bytes(tap@, pos as int, block_len);
                assert(tzx@ =~= old(tzx)@ + tzx_header() + written);
            }
            pos = pos + block_len as usize;
        } else {
            proof {
                lemma_prepend_prepend(
                    written,
                    block_count as nat,
                    Seq::empty(),
                    1,
                    scan(tap@, pos as int),
                );
                assert(written + Seq::<u8>::empty() =~= written);
            }
        }
        block_count = block_count + 1;
    }
    proof {
        assert(scan(tap@, pos as int) == (ScanOutcome::Complete {
            out: Seq::<u8>::empty(),
            count: 0nat,
        }));
        assert(written + Seq::<u8>::empty() =~= written);
    }
    Ok(block_count)
}

/// The number of bytes that the emitted blocks of a scan of `tap` from
/// `pos` occupy: the sum, over every source block with a non-zero length
/// prefix `L`, of 3 header bytes + 2 length bytes + `L` payload bytes.
/// Meaningful where the scan completes.
pub open spec fn emitted_len(tap: Seq<u8>, pos: int) -> int
    recommends
        0 <= pos,
    decreases tap.len() - pos,
{
    if pos >= tap.len() || pos + 2 > tap.len() {
        0
    } else {
        let l = le_u16(tap[pos], tap[pos + 1]) as int;
        if l == 0 {
            emitted_len(tap, pos + 2)
        } else if pos + 2 + l > tap.len() {
            0
        } else {
            3 + 2 + l + emitted_len(tap, pos + 2 + l)
        }
    }
}

/// The number of input bytes that the source blocks of a scan of `tap` from
/// `pos` occupy: the sum, over every source block, of 2 prefix bytes + `L`
/// payload bytes. Meaningful where the scan completes.
pub open spec fn source_len(tap: Seq<u8>, pos: int) -> int
    recommends
        0 <= pos,
    decreases tap.len() - pos,
{
    if pos >= tap.len() || pos + 2 > tap.len() {
        0
    } else {
        let l = le_u16(tap[pos], tap[pos + 1]) as int;
        if l == 0 {
            2 + source_len(tap, pos + 2)
        } else if pos + 2 + l > tap.len() {
            0
        } else {
            2 + l + source_len(tap, pos + 2 + l)
        }
    }
}

/// Output length law: where the scan of `tap` from `pos` completes, the
/// emitted bytes have length `emitted_len(tap, pos)` — the sum over the
/// non-empty source blocks of (3 + 2 + L). With the fixed header, a whole
/// successful conversion thus writes exactly `10 + emitted_len(tap, 0)`
/// bytes.
pub proof fn lemma_output_length(tap: Seq<u8>, pos: int)
    requires
        0 <= pos,
    ensures
        scan(tap, pos) matches ScanOutcome::Complete { out, .. } ==> out.len() == emitted_len(
            tap,
            pos,
        ),
    decreases tap.len() - pos,
{
    if pos >= tap.len() || pos + 2 > tap.len() {
    } else {
        let l = le_u16(tap[pos], tap[pos + 1]) as int;
        if l == 0 {
            lemma_output_length(tap, pos + 2);
        } else if pos + 2 + l > tap.len() {
        } else {
            lemma_output_length(tap, pos + 2 + l);
            assert(block_bytes(tap, pos + 2, le_u16(tap[pos], tap[pos + 1])).len() == 3 + 2 + l);
        }
    }
}

/// Accounting law: where the scan of `tap` from `pos` completes, the source
/// blocks cover the buffer exactly — the sum over all scanned blocks of
/// (2 + L) equals the number of bytes from `pos` to the end.
pub proof fn lemma_input_consumed(tap: Seq<u8>, pos: int)
    requires
        0 <= pos <= tap.len(),
    ensures
        scan(tap, pos) is Complete ==> source_len(tap, pos) == tap.len() - pos,
    decreases tap.len() - pos,
{
    if pos >= tap.len() || pos + 2 > tap.len() {
    } else {
        let l = le_u16(tap[pos], tap[pos + 1]) as int;
        if l == 0 {
            lemma_input_consumed(tap, pos + 2);
        } else if pos + 2 + l > tap.len() {
        } else {
            lemma_input_consumed(tap, pos + 2 + l);
        }
    }
}

/// Idempotence law: the byte stream a conversion writes is a function of the
/// input buffer alone, so converting the same buffer twice, to two sinks,
/// yields byte-identical outputs.
pub proof fn lemma_conversion_deterministic(tap: Seq<u8>, first: Seq<u8>, second: Seq<u8>)
    requires
        first == conversion_output(tap),
        second == conversion_output(tap),
    ensures
        first == second,
{
}

/// Scanning a well-formed buffer with more bytes appended decodes the same
/// blocks and then continues into the appended bytes: block boundaries do
/// not move when the buffer grows on the right.
pub proof fn lemma_scan_extend(
    tap: Seq<u8>,
    rest: Seq<u8>,
    pos: int,
    good_out: Seq<u8>,
    good_count: nat,
)
    requires
        0 <= pos <= tap.len(),
        scan(tap, pos) == (ScanOutcome::Complete { out: good_out, count: good_count }),
    ensures
        scan(tap + rest, pos) == prepend(good_out, good_count, scan(tap + rest, tap.len() as int)),
    decreases tap.len() - pos,
{
    let full = tap + rest;
    if pos >= tap.len() {
        assert(pos == tap.len());
        lemma_prepend_nothing(scan(full, pos));
        assert(good_out =~= Seq::<u8>::empty());
    } else {
        let l = le_u16(tap[pos], tap[pos + 1]) as int;
        assert(full[pos] == tap[pos] && full[pos + 1] == tap[pos + 1]);
        if l == 0 {
            match scan(tap, pos + 2) {
                ScanOutcome::Complete { out, count } => {
                    lemma_scan_extend(tap, rest, pos + 2, out, count);
                    lemma_prepend_prepend(
                        Seq::empty(),
                        1,
                        out,
                        count,
                        scan(full, tap.len() as int),
                    );
                    assert(Seq::<u8>::empty() + out =~= good_out);
                },
                ScanOutcome::Malformed { .. } => {
                    assert(false);
                },
            }
        } else {
            match scan(tap, pos + 2 + l) {
                ScanOutcome::Complete { out, count } => {
                    let bb = block_bytes(tap, pos + 2, le_u16(tap[pos], tap[pos + 1]));
                    assert(block_bytes(full, pos + 2, le_u16(tap[pos], tap[pos + 1])) =~= bb) by {
                        assert(full.subrange(pos, pos + 2) =~= tap.subrange(pos, pos + 2));
                        assert(full.subrange(pos + 2, pos + 2 + l) =~= tap.subrange(
                            pos + 2,
                            pos + 2 + l,
                        ));
                    }
                    lemma_scan_extend(tap, rest, pos + 2 + l, out, count);
                    lemma_prepend_prepend(bb, 1, out, count, scan(full, tap.len() as int));
                    assert(bb + out =~= good_out);
                },
                ScanOutcome::Malformed { .. } => {
                    assert(false);
                },
            }
        }
    }
}

/// Truncation law: a well-formed block stream followed by a single trailing
/// byte — one byte where a 2-byte length prefix is expected — fails, with
/// the offending offset at that byte, after emitting exactly the blocks of
/// the well-formed part.
pub proof fn lemma_trailing_byte_fails(
    tap: Seq<u8>,
    tail: Seq<u8>,
    good_out: Seq<u8>,
    good_count: nat,
)
    requires
        scan(tap, 0) == (ScanOutcome::Complete { out: good_out, count: good_count }),
        tail.len() == 1,
    ensures
        scan(tap + tail, 0) == (ScanOutcome::Malformed { offset: tap.len() as int, out: good_out }),
{
    lemma_scan_extend(tap, tail, 0, good_out, good_count);
    assert(good_out + Seq::<u8>::empty() =~= good_out);
}

/// Overrun law: a well-formed block stream followed by a final block whose
/// length prefix claims more payload bytes than remain fails, with the
/// offending offset at that prefix, after emitting exactly the blocks of
/// the well-formed part.
pub proof fn lemma_overrun_tail_fails(
    tap: Seq<u8>,
    tail: Seq<u8>,
    good_out: Seq<u8>,
    good_count: nat,
)
    requires
        scan(tap, 0) == (ScanOutcome::Complete { out: good_out, count: good_count }),
        tail.len() >= 2,
        le_u16(tail[0], tail[1]) != 0,
        2 + le_u16(tail[0], tail[1]) > tail.len(),
    ensures
        scan(tap + tail, 0) == (ScanOutcome::Malformed { offset: tap.len() as int, out: good_out }),
{
    let full = tap + tail;
    let n = tap.len() as int;
    lemma_scan_extend(tap, tail, 0, good_out, good_count);
    assert(full[n] == tail[0] && full[n + 1] == tail[1]);
    assert(scan(full, n) == (ScanOutcome::Malformed { offset: n, out: Seq::<u8>::empty() }));
    assert(good_out + Seq::<u8>::empty() =~= good_out);
}

} // verus!
