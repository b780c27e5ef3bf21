//! The mathematical model of Opus packet framing: the TOC
//! byte, frame-length codes, padding, and the frame layout a packet
//! describes. The executable parser and writer in `repacketizer` are proved
//! against these definitions.

use vstd::prelude::*;
use crate::tdiv;

verus! {

/// Sum of a sequence of integers.
pub open spec fn seq_sum(s: Seq<int>) -> int
    decreases s.len(),
{
    if s.len() == 0 {
        0
    } else {
        seq_sum(s.drop_last()) + s.last()
    }
}

/// Every element is non-negative.
pub open spec fn all_nonneg(s: Seq<int>) -> bool {
    forall|i: int| 0 <= i < s.len() ==> 0 <= #[trigger] s[i]
}

/// The samples per frame a TOC byte declares at sampling rate `fs`
/// with the two's-complement wrap of
/// `fs << n` that the computation performs.
#[verifier::opaque]
pub open spec fn spec_samples_per_frame(toc: u8, fs: i32) -> int {
    let a = (toc / 8) % 4;
    if toc >= 128 {
        tdiv(vstd::wrapping::i32_specs::signed_crop(fs * pow2_small(a as int)) as int, 400)
    } else if (toc / 32) % 4 == 3 {
        if (toc / 8) % 2 == 1 {
            tdiv(fs as int, 50)
        } else {
            tdiv(fs as int, 100)
        }
    } else if a == 3 {
        tdiv(fs * 60, 1000)
    } else {
        tdiv(vstd::wrapping::i32_specs::signed_crop(fs * pow2_small(a as int)) as int, 100)
    }
}

/// 2^a for the frame-size exponents 0..=3 a TOC byte carries.
pub open spec fn pow2_small(a: int) -> int {
    if a == 0 {
        1
    } else if a == 1 {
        2
    } else if a == 2 {
        4
    } else {
        8
    }
}

/// At 48 kHz a TOC byte declares six times the samples it declares at
/// 8 kHz: 120 << n for CELT, 480 or 960 for hybrid, 480 << n or 2880 for SILK.
pub proof fn lemma_samples_per_frame_rates(toc: u8)
    ensures
        spec_samples_per_frame(toc, 48000) == 6 * spec_samples_per_frame(toc, 8000),
        20 <= spec_samples_per_frame(toc, 8000) <= 480,
{
    reveal(spec_samples_per_frame);
    let a = ((toc / 8) % 4) as int;
    let m = pow2_small(a);
    assert(1 <= m <= 8);
    assert(vstd::wrapping::i32_specs::signed_crop(48000 * m) == 48000 * m);
    assert(vstd::wrapping::i32_specs::signed_crop(8000 * m) == 8000 * m);
}

/// The number of frames a packet declares.
pub open spec fn spec_nb_frames(packet: Seq<u8>) -> Option<int> {
    if packet.len() == 0 {
        None
    } else if packet[0] % 4 == 0 {
        Some(1)
    } else if packet[0] % 4 == 3 {
        if packet.len() < 2 {
            None
        } else {
            Some((packet[1] % 64) as int)
        }
    } else {
        Some(2)
    }
}

/// The number of bytes in the length code of a `len`-byte frame.
pub open spec fn size_code_len(len: int) -> int {
    if len < 252 {
        1
    } else {
        2
    }
}

/// The length code written for a `len`-byte frame: one byte below 252,
/// otherwise `252 + len % 4` followed by `(len - that) / 4`.
pub open spec fn size_code(len: int) -> Seq<u8> {
    if len < 252 {
        seq![len as u8]
    } else {
        let b0 = 252 + len % 4;
        seq![b0 as u8, ((len - b0) / 4) as u8]
    }
}

/// Reads the length code at `pos`: `Some((bytes used, frame length))`.
pub open spec fn read_size(data: Seq<u8>, pos: int) -> Option<(int, int)> {
    if pos < 0 || pos >= data.len() {
        None
    } else if data[pos] < 252 {
        Some((1, data[pos] as int))
    } else if pos + 1 >= data.len() {
        None
    } else {
        Some((2, data[pos + 1] * 4 + data[pos]))
    }
}

/// The byte widths of a run of length codes.
pub open spec fn code_widths(ps: Seq<(int, int)>) -> Seq<int> {
    Seq::new(ps.len(), |i: int| ps[i].0)
}

/// Total bytes used by a run of length codes.
pub open spec fn code_bytes(ps: Seq<(int, int)>) -> int {
    seq_sum(code_widths(ps))
}

/// Each code of a run has the width its length calls for and a length a
/// code can express.
pub open spec fn codes_well_formed(ps: Seq<(int, int)>) -> bool {
    forall|i: int|
        0 <= i < ps.len() ==> #[trigger] ps[i].0 == size_code_len(ps[i].1) && 0 <= ps[i].1 <= 1275
}

/// The frame lengths a run of length codes gives.
pub open spec fn code_lens(ps: Seq<(int, int)>) -> Seq<int> {
    Seq::new(ps.len(), |i: int| ps[i].1)
}

/// Reads `n` consecutive length codes starting at `pos`.
pub open spec fn read_sizes(data: Seq<u8>, pos: int, n: nat) -> Option<Seq<(int, int)>>
    decreases n,
{
    if n == 0 {
        Some(Seq::empty())
    } else {
        match read_sizes(data, pos, (n - 1) as nat) {
            None => None,
            Some(ps) => match read_size(data, pos + code_bytes(ps)) {
                None => None,
                Some(x) => Some(ps.push(x)),
            },
        }
    }
}

/// Skips the padding-length bytes of a code-3 packet starting at `pos`,
/// where `len` bytes remain for frames and padding. Each 255 adds 254 bytes
/// of padding and continues; any other value `p` adds `p` bytes and ends.
/// Gives the position after the padding-length bytes and the bytes left for
/// frames once the padding is taken off.
pub open spec fn skip_padding(data: Seq<u8>, pos: int, len: int) -> Option<(int, int)>
    decreases (if len > 0 {
        len
    } else {
        0
    }),
{
    if len <= 0 {
        None
    } else {
        let p = data[pos];
        if p == 255 {
            skip_padding(data, pos + 1, len - 255)
        } else {
            Some((pos + 1, len - 1 - p))
        }
    }
}

/// The framing a packet's header declares before the self-delimiting length:
/// `(position after the header, bytes left, constant frame size?, size left
/// for the last frame, sizes of the leading frames, frame count)`.
pub type Framing = (int, int, bool, int, Seq<int>, int);

/// The frame sizes of a code-3 packet, read at `pos` once the padding is
/// taken off (`len` bytes left for the frames and their length codes).
/// `vbr` packets code the length of every frame but the last; constant-size
/// packets split the bytes evenly (unless self-delimited, where the
/// self-delimiting length gives the size).
pub open spec fn code3_sizes(data: Seq<u8>, sd: bool, pos: int, len: int, count: int, vbr: bool) -> Option<
    Framing,
> {
    if len < 0 {
        None
    } else if vbr {
        match read_sizes(data, pos, (count - 1) as nat) {
            None => None,
            Some(ps) => {
                let last = len - code_bytes(ps) - seq_sum(code_lens(ps));
                if last < 0 {
                    None
                } else {
                    Some((pos + code_bytes(ps), len - code_bytes(ps), false, last, code_lens(ps), count))
                }
            },
        }
    } else if !sd {
        let last = len / count;
        if last * count != len {
            None
        } else {
            Some((pos, len, true, last, Seq::new((count - 1) as nat, |i: int| last), count))
        }
    } else {
        Some((pos, len, true, len, Seq::empty(), count))
    }
}

/// Header of a code-3 packet (`len` bytes follow the TOC byte): the count
/// byte (frame count, padding flag, varying-size flag), then the padding.
pub open spec fn code3_framing(data: Seq<u8>, sd: bool, len: int) -> Option<Framing> {
    if len < 1 {
        None
    } else {
        let ch = data[1];
        let len = len - 1;
        let count = (ch % 64) as int;
        if count == 0 || spec_samples_per_frame(data[0], 48000) * count > 5760 {
            None
        } else {
            let padded = if (ch / 64) % 2 == 1 {
                skip_padding(data, 2, len)
            } else {
                Some((2int, len))
            };
            match padded {
                None => None,
                Some((pos, len)) => code3_sizes(data, sd, pos, len, count, ch >= 128),
            }
        }
    }
}

/// The framing declared by the TOC byte's code (0..=3) and what follows it.
pub open spec fn header_framing(data: Seq<u8>, sd: bool) -> Option<Framing> {
    let len = data.len() - 1;
    let code = data[0] % 4;
    if code == 0 {
        Some((1, len, false, len, Seq::empty(), 1))
    } else if code == 1 {
        if sd {
            Some((1, len, true, len, Seq::empty(), 2))
        } else if len % 2 != 0 {
            None
        } else {
            Some((1, len, true, len / 2, seq![len / 2], 2))
        }
    } else if code == 2 {
        match read_size(data, 1) {
            None => None,
            Some((b, s)) => if s > len - b {
                None
            } else {
                Some((1 + b, len - b, false, len - b - s, seq![s], 2))
            },
        }
    } else {
        code3_framing(data, sd, len)
    }
}

/// Accepts the frame layout when every frame lies inside the packet.
pub open spec fn frames_fit(data: Seq<u8>, hdr: int, sizes: Seq<int>) -> Option<(int, Seq<int>)> {
    if hdr + seq_sum(sizes) <= data.len() {
        Some((hdr, sizes))
    } else {
        None
    }
}

/// The frame layout once the header framing is known: the self-delimiting
/// length (if any) or the rule that the last frame takes what is left.
pub open spec fn finish_parse(data: Seq<u8>, sd: bool, f: Framing) -> Option<(int, Seq<int>)> {
    let (pos, len, cbr, last, sizes, count) = f;
    if sd {
        match read_size(data, pos) {
            None => None,
            Some((b, s)) => {
                if s > len - b {
                    None
                } else if cbr {
                    if s * count > len - b {
                        None
                    } else {
                        frames_fit(data, pos + b, Seq::new(count as nat, |i: int| s))
                    }
                } else if b + s > last {
                    None
                } else {
                    frames_fit(data, pos + b, sizes.push(s))
                }
            },
        }
    } else if last > 1275 {
        None
    } else {
        frames_fit(data, pos, sizes.push(last))
    }
}

/// The frame layout of a packet: `Some((offset of the first frame, frame
/// sizes))`, frames stored back to back; `None` for a malformed packet.
/// `sd` selects the self-delimited framing, where the last frame's length
/// is coded too and bytes may follow the packet.
pub open spec fn parse_model(data: Seq<u8>, sd: bool) -> Option<(int, Seq<int>)> {
    if data.len() == 0 {
        None
    } else {
        match header_framing(data, sd) {
            None => None,
            Some(f) => finish_parse(data, sd, f),
        }
    }
}

/// Offset of frame `i` in a layout starting at `hdr`.
pub open spec fn frame_offset(hdr: int, sizes: Seq<int>, i: int) -> int {
    hdr + seq_sum(sizes.take(i))
}

/// The bytes of each frame of a parsed layout.
pub open spec fn frames_of(data: Seq<u8>, hdr: int, sizes: Seq<int>) -> Seq<Seq<u8>> {
    Seq::new(
        sizes.len(),
        |i: int| data.subrange(frame_offset(hdr, sizes, i), frame_offset(hdr, sizes, i) + sizes[i]),
    )
}

/// The frames of a packet, when it parses.
pub open spec fn packet_frames(data: Seq<u8>, sd: bool) -> Option<Seq<Seq<u8>>> {
    match parse_model(data, sd) {
        None => None,
        Some((hdr, sizes)) => Some(frames_of(data, hdr, sizes)),
    }
}

// ---------------------------------------------------------------------------
// Writing packets.
// ---------------------------------------------------------------------------

/// The length of each frame.
pub open spec fn frame_lens(fs: Seq<Seq<u8>>) -> Seq<int> {
    Seq::new(fs.len(), |i: int| fs[i].len() as int)
}

/// Every frame has the length of the first.
pub open spec fn all_same_len(fs: Seq<Seq<u8>>) -> bool {
    forall|i: int| 0 <= i < fs.len() ==> #[trigger] fs[i].len() == fs[0].len()
}

/// The frames' bytes, back to back.
pub open spec fn concat_frames(fs: Seq<Seq<u8>>) -> Seq<u8>
    decreases fs.len(),
{
    if fs.len() == 0 {
        Seq::empty()
    } else {
        concat_frames(fs.drop_last()) + fs.last()
    }
}

/// The length codes of the given lengths, back to back.
pub open spec fn concat_codes(ls: Seq<int>) -> Seq<u8>
    decreases ls.len(),
{
    if ls.len() == 0 {
        Seq::empty()
    } else {
        concat_codes(ls.drop_last()) + size_code(ls.last())
    }
}

/// Size of a code-3 packet holding `fs` without padding: TOC and count
/// bytes, the length codes of all frames but the last when sizes vary, and
/// the frames.
pub open spec fn code3_size(fs: Seq<Seq<u8>>, vbr: bool) -> int {
    let n = fs.len() as int;
    if vbr {
        2 + seq_sum(
            Seq::new((n - 1) as nat, |i: int| size_code_len(fs[i].len() as int) + fs[i].len()),
        ) + fs[n - 1].len()
    } else {
        2 + n * fs[0].len()
    }
}

/// The padding-length bytes that declare `pad` bytes of padding in all
/// (these bytes included): `(pad - 1) / 255` bytes of 255, then the rest.
pub open spec fn padding_code(pad: int) -> Seq<u8> {
    let nb = (pad - 1) / 255;
    Seq::new(nb as nat, |i: int| 255u8).push((pad - 255 * nb - 1) as u8)
}

/// The packet written for frames `fs` of configuration `toc`
/// by the repacketizer. One frame gives code 0; two frames of
/// equal length code 1, of unequal length code 2; more frames, or padding up
/// to `pad_to` bytes, code 3, with sizes coded when they vary. `sd` adds the
/// last frame's length code of the self-delimited framing.
pub open spec fn spec_out(toc: u8, fs: Seq<Seq<u8>>, pad_to: Option<usize>, sd: bool) -> Seq<u8> {
    let n = fs.len() as int;
    let t = toc / 4 * 4;
    let sdc = if sd {
        size_code(fs[n - 1].len() as int)
    } else {
        Seq::empty()
    };
    if n > 2 || pad_to is Some {
        let body = code3_body(toc, fs, pad_to, sd);
        match pad_to {
            Some(m) => if body.len() < m {
                body + Seq::new((m - body.len()) as nat, |i: int| 0u8)
            } else {
                body
            },
            None => body,
        }
    } else if n == 1 {
        seq![t as u8] + sdc + fs[0]
    } else if fs[0].len() == fs[1].len() {
        seq![(t + 1) as u8] + sdc + fs[0] + fs[1]
    } else {
        seq![(t + 2) as u8] + size_code(fs[0].len() as int) + sdc + fs[0] + fs[1]
    }
}

/// Bytes of padding a code-3 packet of `fs` carries to reach `pad_to`.
pub open spec fn code3_pad(fs: Seq<Seq<u8>>, pad_to: Option<usize>) -> int {
    let tot = code3_size(fs, !all_same_len(fs));
    match pad_to {
        Some(m) => if m > tot {
            m - tot
        } else {
            0
        },
        None => 0,
    }
}

/// The padding-length bytes of a code-3 packet of `fs` padded to `pad_to`.
pub open spec fn code3_padhdr(fs: Seq<Seq<u8>>, pad_to: Option<usize>) -> Seq<u8> {
    let pad = code3_pad(fs, pad_to);
    if pad > 0 {
        padding_code(pad)
    } else {
        Seq::empty()
    }
}

/// The length codes of a code-3 packet: those of all frames but the last,
/// when the sizes vary.
pub open spec fn code3_codes(fs: Seq<Seq<u8>>) -> Seq<u8> {
    if !all_same_len(fs) {
        concat_codes(frame_lens(fs).drop_last())
    } else {
        Seq::empty()
    }
}

/// The self-delimiting length code: that of the last frame.
pub open spec fn sd_code(fs: Seq<Seq<u8>>, sd: bool) -> Seq<u8> {
    if sd {
        size_code(frame_lens(fs).last())
    } else {
        Seq::empty()
    }
}

/// The count byte of a code-3 packet: frame count, padding flag (64) and
/// varying-size flag (128).
pub open spec fn code3_count_byte(fs: Seq<Seq<u8>>, pad_to: Option<usize>) -> u8 {
    (fs.len() + (if !all_same_len(fs) {
        128int
    } else {
        0
    }) + (if code3_pad(fs, pad_to) > 0 {
        64int
    } else {
        0
    })) as u8
}

/// A code-3 packet before the zero bytes of its padding: TOC byte, count
/// byte, padding-length bytes, length codes, the self-delimiting length,
/// then the frames.
pub open spec fn code3_body(toc: u8, fs: Seq<Seq<u8>>, pad_to: Option<usize>, sd: bool) -> Seq<u8> {
    seq![(toc / 4 * 4 + 3) as u8, code3_count_byte(fs, pad_to)] + code3_padhdr(fs, pad_to) + code3_codes(fs)
        + sd_code(fs, sd) + concat_frames(fs)
}

/// What a repacketizer may hold: frames of at most 1275 bytes, together at
/// most 120 ms long (960 samples at 8 kHz) for configuration `toc`.
pub open spec fn frames_hold(toc: u8, fs: Seq<Seq<u8>>) -> bool {
    &&& forall|i: int| 0 <= i < fs.len() ==> (#[trigger] fs[i]).len() <= 1275
    &&& fs.len() * spec_samples_per_frame(toc, 8000) <= 960
}

// ---------------------------------------------------------------------------
// Lemmas about the model.
// ---------------------------------------------------------------------------

pub(crate) proof fn lemma_seq_sum_push(s: Seq<int>, x: int)
    ensures
        seq_sum(s.push(x)) == seq_sum(s) + x,
{
    assert(s.push(x).drop_last() =~= s);
}

pub(crate) proof fn lemma_seq_sum_take_step(s: Seq<int>, i: int)
    requires
        0 <= i < s.len(),
    ensures
        seq_sum(s.take(i + 1)) == seq_sum(s.take(i)) + s[i],
{
    assert(s.take(i + 1).drop_last() =~= s.take(i));
}

pub(crate) proof fn lemma_seq_sum_nonneg(s: Seq<int>)
    requires
        all_nonneg(s),
    ensures
        seq_sum(s) >= 0,
    decreases s.len(),
{
    if s.len() > 0 {
        lemma_seq_sum_nonneg(s.drop_last());
    }
}

/// A prefix of non-negative numbers sums to no more than the whole.
pub(crate) proof fn lemma_seq_sum_prefix_le(s: Seq<int>, i: int)
    requires
        all_nonneg(s),
        0 <= i <= s.len(),
    ensures
        seq_sum(s.take(i)) <= seq_sum(s),
    decreases s.len(),
{
    if i < s.len() {
        assert(s.drop_last().take(i) =~= s.take(i));
        lemma_seq_sum_prefix_le(s.drop_last(), i);
    } else {
        assert(s.take(i) =~= s);
    }
}

/// A sequence of copies of `x` sums to `n * x`.
pub(crate) proof fn lemma_seq_sum_const(n: nat, x: int)
    ensures
        seq_sum(Seq::new(n, |i: int| x)) == n * x,
    decreases n,
{
    let s = Seq::new(n, |i: int| x);
    if n > 0 {
        let m = (n - 1) as nat;
        assert(s.drop_last() =~= Seq::new(m, |i: int| x));
        assert(s.last() == x);
        lemma_seq_sum_const(m, x);
        assert(seq_sum(s) == seq_sum(s.drop_last()) + s.last());
        assert(m * x + x == n * x) by (nonlinear_arith)
            requires
                m + 1 == n,
        ;
    } else {
        assert(seq_sum(s) == 0);
    }
}

/// Reading `n` codes reads the first `k` of them on the way.
pub(crate) proof fn lemma_read_sizes_prefix(data: Seq<u8>, pos: int, n: nat, k: nat)
    requires
        k <= n,
        read_sizes(data, pos, n) is Some,
    ensures
        read_sizes(data, pos, k) is Some,
        read_sizes(data, pos, k).unwrap() == read_sizes(data, pos, n).unwrap().take(k as int),
        read_sizes(data, pos, n).unwrap().len() == n,
    decreases n,
{
    if n > 0 {
        lemma_read_sizes_prefix(data, pos, (n - 1) as nat, if k < n { k } else { (n - 1) as nat });
        let ps = read_sizes(data, pos, (n - 1) as nat).unwrap();
        assert(read_sizes(data, pos, n).unwrap() == ps.push(read_size(data, pos + code_bytes(ps)).unwrap()));
        if k < n {
            assert(ps.push(read_size(data, pos + code_bytes(ps)).unwrap()).take(k as int) =~= ps.take(k as int));
        } else {
            assert(read_sizes(data, pos, n).unwrap().take(k as int) =~= read_sizes(data, pos, n).unwrap());
        }
    }
}

/// Reading at `pos` is reading the suffix that starts there.
pub(crate) proof fn lemma_read_size_suffix(data: Seq<u8>, pos: int)
    requires
        0 <= pos <= data.len(),
    ensures
        read_size(data.subrange(pos, data.len() as int), 0) == read_size(data, pos),
{
    let t = data.subrange(pos, data.len() as int);
    if pos < data.len() {
        assert(t[0] == data[pos]);
        if pos + 1 < data.len() {
            assert(t[1] == data[pos + 1]);
        }
    }
}

/// A length code uses one or two bytes and gives a length of at most 1275.
pub(crate) proof fn lemma_read_size_bounds(data: Seq<u8>, pos: int)
    requires
        read_size(data, pos) is Some,
    ensures
        ({
            let (b, s) = read_size(data, pos).unwrap();
            &&& b == size_code_len(s)
            &&& 0 <= s <= 1275
            &&& pos + b <= data.len()
        }),
{
}

/// Every length code in a run is well formed.
pub(crate) proof fn lemma_read_sizes_bounds(data: Seq<u8>, pos: int, n: nat)
    requires
        0 <= pos <= data.len(),
        read_sizes(data, pos, n) is Some,
    ensures
        ({
            let ps = read_sizes(data, pos, n).unwrap();
            &&& ps.len() == n
            &&& codes_well_formed(ps)
            &&& all_nonneg(code_lens(ps))
            &&& code_bytes(ps) >= 0
            &&& pos + code_bytes(ps) <= data.len()
        }),
    decreases n,
{
    if n > 0 {
        lemma_read_sizes_bounds(data, pos, (n - 1) as nat);
        let ps = read_sizes(data, pos, (n - 1) as nat).unwrap();
        lemma_read_size_bounds(data, pos + code_bytes(ps));
        let x = read_size(data, pos + code_bytes(ps)).unwrap();
        lemma_code_lens_push(ps, x);
        let nps = ps.push(x);
        assert(read_sizes(data, pos, n).unwrap() == nps);
        assert(pos + code_bytes(ps) + x.0 <= data.len());
        assert(code_bytes(nps) == code_bytes(ps) + x.0);
        assert forall|i: int| 0 <= i < nps.len() implies #[trigger] nps[i].0 == size_code_len(nps[i].1)
            && 0 <= nps[i].1 <= 1275 by {
            if i < ps.len() {
                assert(nps[i] == ps[i]);
            }
        }
        assert forall|i: int| 0 <= i < code_lens(nps).len() implies 0 <= #[trigger] code_lens(nps)[i] by {
            assert(code_lens(nps)[i] == nps[i].1);
        }
    }
}

pub(crate) proof fn lemma_codes_well_formed_push(ps: Seq<(int, int)>, x: (int, int))
    requires
        codes_well_formed(ps),
        x.0 == size_code_len(x.1),
        0 <= x.1 <= 1275,
    ensures
        codes_well_formed(ps.push(x)),
{
    let nps = ps.push(x);
    assert forall|i: int| 0 <= i < nps.len() implies #[trigger] nps[i].0 == size_code_len(nps[i].1) && 0
        <= nps[i].1 <= 1275 by {
        if i < ps.len() {
            assert(nps[i] == ps[i]);
        } else {
            assert(nps[i] == x);
        }
    }
}

pub(crate) proof fn lemma_code_lens_push(ps: Seq<(int, int)>, x: (int, int))
    ensures
        code_lens(ps.push(x)) =~= code_lens(ps).push(x.1),
        code_bytes(ps.push(x)) == code_bytes(ps) + x.0,
        seq_sum(code_lens(ps.push(x))) == seq_sum(code_lens(ps)) + x.1,
{
    assert(code_widths(ps.push(x)) =~= code_widths(ps).push(x.0));
    assert(code_lens(ps.push(x)) =~= code_lens(ps).push(x.1));
    lemma_seq_sum_push(code_widths(ps), x.0);
    lemma_seq_sum_push(code_lens(ps), x.1);
}

/// The codes read on the way to the end of a run use no more bytes, and give
/// no more length, than the whole run.
pub(crate) proof fn lemma_code_prefix_le(ps: Seq<(int, int)>, j: int)
    requires
        0 <= j <= ps.len(),
        codes_well_formed(ps),
    ensures
        code_bytes(ps.take(j)) <= code_bytes(ps),
        seq_sum(code_lens(ps.take(j))) <= seq_sum(code_lens(ps)),
{
    assert(code_widths(ps.take(j)) =~= code_widths(ps).take(j));
    assert(code_lens(ps.take(j)) =~= code_lens(ps).take(j));
    assert forall|i: int| 0 <= i < code_widths(ps).len() implies 0 <= #[trigger] code_widths(ps)[i] by {
        assert(0 <= ps[i].0);
        assert(code_widths(ps)[i] == ps[i].0);
    }
    assert forall|i: int| 0 <= i < code_lens(ps).len() implies 0 <= #[trigger] code_lens(ps)[i] by {
        assert(0 <= ps[i].0);
        assert(code_lens(ps)[i] == ps[i].1);
    }
    lemma_seq_sum_prefix_le(code_widths(ps), j);
    lemma_seq_sum_prefix_le(code_lens(ps), j);
}

/// One or two frames are written as they are.
pub(crate) proof fn lemma_concat_frames_small(fs: Seq<Seq<u8>>)
    ensures
        fs.len() == 1 ==> concat_frames(fs) == fs[0],
        fs.len() == 2 ==> concat_frames(fs) == fs[0] + fs[1],
{
    let e = Seq::<Seq<u8>>::empty();
    assert(concat_frames(e) == Seq::<u8>::empty());
    if fs.len() == 1 {
        assert(fs.drop_last() =~= e);
        assert(concat_frames(fs) == concat_frames(fs.drop_last()) + fs.last());
        assert(concat_frames(fs) =~= fs[0]);
    } else if fs.len() == 2 {
        let a = fs.drop_last();
        assert(a.drop_last() =~= e);
        assert(concat_frames(a) == concat_frames(a.drop_last()) + a.last());
        assert(concat_frames(a) =~= fs[0]);
        assert(concat_frames(fs) == concat_frames(a) + fs.last());
    }
}

/// Skipping padding moves forward within the packet.
pub(crate) proof fn lemma_skip_padding_bounds(data: Seq<u8>, pos: int, len: int)
    requires
        0 <= pos,
        len <= data.len() - pos,
        skip_padding(data, pos, len) is Some,
    ensures
        pos < skip_padding(data, pos, len).unwrap().0 <= data.len(),
        skip_padding(data, pos, len).unwrap().1 <= data.len() - skip_padding(data, pos, len).unwrap().0,
    decreases (if len > 0 {
        len
    } else {
        0
    }),
{
    if data[pos] == 255 {
        lemma_skip_padding_bounds(data, pos + 1, len - 255);
    }
}

/// The frame count of a parsed packet is the one its header declares, every
/// frame holds at most 1275 bytes and lies inside the packet.
pub(crate) proof fn lemma_parse_model_facts(data: Seq<u8>, sd: bool)
    requires
        parse_model(data, sd) is Some,
    ensures
        ({
            let (hdr, sizes) = parse_model(data, sd).unwrap();
            &&& spec_nb_frames(data) == Some(sizes.len() as int)
            &&& forall|i: int| 0 <= i < sizes.len() ==> 0 <= #[trigger] sizes[i] <= 1275
            &&& all_nonneg(sizes)
            &&& 1 <= hdr
            &&& hdr + seq_sum(sizes) <= data.len()
        }),
{
    let (hdr, sizes) = parse_model(data, sd).unwrap();
    let f = header_framing(data, sd).unwrap();
    let (pos, len, cbr, last, pre, count) = f;
    let code = data[0] % 4;
    // The header framing: its leading sizes are bounded and number count - 1
    // (none when the sizes are all coded by the self-delimiting length).
    assert(1 <= pos <= data.len() && 0 <= len <= data.len() - pos && 0 <= last <= len
        && forall|i: int| 0 <= i < pre.len() ==> 0 <= #[trigger] pre[i] <= 1275) by {
        if code == 2 {
            lemma_read_size_bounds(data, 1);
        } else if code == 3 {
            let ch = data[1];
            let l1 = data.len() - 2;
            let padded = if (ch / 64) % 2 == 1 {
                skip_padding(data, 2, l1)
            } else {
                Some((2int, l1))
            };
            if (ch / 64) % 2 == 1 {
                lemma_skip_padding_bounds(data, 2, l1);
            }
            let (p2, l2) = padded.unwrap();
            if ch >= 128 {
                let n = ((ch % 64) - 1) as nat;
                lemma_read_sizes_bounds(data, p2, n);
                let ps = read_sizes(data, p2, n).unwrap();
                assert forall|i: int| 0 <= i < pre.len() implies 0 <= #[trigger] pre[i] <= 1275 by {
                    assert(ps[i].0 == size_code_len(ps[i].1));
                }
                lemma_seq_sum_nonneg(code_lens(ps));
            } else if !sd {
                assert(0 <= len / count <= len) by (nonlinear_arith)
                    requires
                        0 <= len,
                        1 <= count,
                ;
            }
        }
    }
    assert(pre.len() == (if sd && cbr {
        0
    } else {
        count - 1
    })) by {
        if code == 3 && data[1] >= 128 {
            let l1 = data.len() - 2;
            let ch = data[1];
            let padded = if (ch / 64) % 2 == 1 {
                skip_padding(data, 2, l1)
            } else {
                Some((2int, l1))
            };
            let (p2, l2) = padded.unwrap();
            lemma_read_sizes_prefix(data, p2, ((ch % 64) - 1) as nat, 0);
        }
    }
    assert(spec_nb_frames(data) == Some(count));
    if sd {
        lemma_read_size_bounds(data, pos);
    }
    assert forall|i: int| 0 <= i < sizes.len() implies 0 <= #[trigger] sizes[i] <= 1275 by {
        if !(sd && cbr) && i < pre.len() {
            assert(sizes[i] == pre[i]);
        }
    }
}

// ---------------------------------------------------------------------------
// Reading back what was written.
// ---------------------------------------------------------------------------

/// A length code of 0..=1275 reads back as the length it codes.
pub proof fn lemma_size_code_read(data: Seq<u8>, pos: int, l: int)
    requires
        0 <= l <= 1275,
        0 <= pos,
        pos + size_code(l).len() <= data.len(),
        data.subrange(pos, pos + size_code(l).len()) == size_code(l),
    ensures
        size_code(l).len() == size_code_len(l),
        read_size(data, pos) == Some((size_code_len(l), l)),
{
    let c = size_code(l);
    assert(data[pos] == c[0]);
    if l >= 252 {
        assert(data[pos + 1] == c[1]);
        let b0 = 252 + l % 4;
        assert(0 <= (l - b0) / 4 <= 255);
        assert((l - b0) / 4 * 4 == l - b0);
    }
}

/// Widths of the length codes of the given lengths.
pub open spec fn code_len_seq(ls: Seq<int>) -> Seq<int> {
    Seq::new(ls.len(), |i: int| size_code_len(ls[i]))
}

/// The length codes of lengths 0..=1275, back to back, read back as those
/// lengths.
pub(crate) proof fn lemma_concat_codes_read(data: Seq<u8>, pos: int, ls: Seq<int>)
    requires
        forall|i: int| 0 <= i < ls.len() ==> 0 <= #[trigger] ls[i] <= 1275,
        0 <= pos,
        pos + concat_codes(ls).len() <= data.len(),
        data.subrange(pos, pos + concat_codes(ls).len()) == concat_codes(ls),
    ensures
        concat_codes(ls).len() == seq_sum(code_len_seq(ls)),
        read_sizes(data, pos, ls.len()) is Some,
        code_lens(read_sizes(data, pos, ls.len()).unwrap()) == ls,
        code_bytes(read_sizes(data, pos, ls.len()).unwrap()) == concat_codes(ls).len(),
    decreases ls.len(),
{
    if ls.len() > 0 {
        let init = ls.drop_last();
        let c0 = concat_codes(init);
        let c = concat_codes(ls);
        assert(c == c0 + size_code(ls.last()));
        assert(data.subrange(pos, pos + c0.len()) =~= c0) by {
            assert forall|k: int| 0 <= k < c0.len() implies data.subrange(pos, pos + c0.len())[k] == c0[k] by {
                assert(data.subrange(pos, pos + c.len())[k] == c[k]);
            }
        }
        lemma_concat_codes_read(data, pos, init);
        let ps = read_sizes(data, pos, init.len()).unwrap();
        let sc = size_code(ls.last());
        assert(data.subrange(pos + c0.len(), pos + c0.len() + sc.len()) =~= sc) by {
            assert forall|k: int| 0 <= k < sc.len() implies data.subrange(pos + c0.len(), pos + c0.len() + sc.len())[k]
                == sc[k] by {
                assert(data.subrange(pos, pos + c.len())[c0.len() + k] == c[c0.len() + k]);
            }
        }
        lemma_size_code_read(data, pos + c0.len(), ls.last());
        let x = (size_code_len(ls.last()), ls.last());
        assert(read_sizes(data, pos, ls.len()) == Some(ps.push(x)));
        lemma_code_lens_push(ps, x);
        assert(ls =~= init.push(ls.last()));
        assert(code_len_seq(ls).drop_last() =~= code_len_seq(init));
    }
}

/// Frames written back to back are found again at their offsets.
pub(crate) proof fn lemma_frames_of_concat(data: Seq<u8>, hdr: int, fs: Seq<Seq<u8>>)
    requires
        0 <= hdr,
        hdr + concat_frames(fs).len() <= data.len(),
        data.subrange(hdr, hdr + concat_frames(fs).len()) == concat_frames(fs),
    ensures
        concat_frames(fs).len() == seq_sum(frame_lens(fs)),
        frames_of(data, hdr, frame_lens(fs)) == fs,
    decreases fs.len(),
{
    if fs.len() > 0 {
        let init = fs.drop_last();
        let c0 = concat_frames(init);
        let c = concat_frames(fs);
        assert(c == c0 + fs.last());
        assert(data.subrange(hdr, hdr + c0.len()) =~= c0) by {
            assert forall|k: int| 0 <= k < c0.len() implies data.subrange(hdr, hdr + c0.len())[k] == c0[k] by {
                assert(data.subrange(hdr, hdr + c.len())[k] == c[k]);
            }
        }
        lemma_frames_of_concat(data, hdr, init);
        let ls = frame_lens(fs);
        assert(ls.drop_last() =~= frame_lens(init));
        let n = fs.len() - 1;
        assert forall|i: int| 0 <= i < fs.len() implies #[trigger] frames_of(data, hdr, ls)[i] == fs[i] by {
            if i < n {
                assert(ls.take(i) =~= frame_lens(init).take(i));
                assert(frames_of(data, hdr, frame_lens(init))[i] == init[i]);
            } else {
                assert(ls.take(i) =~= frame_lens(init));
                assert(data.subrange(hdr + c0.len(), hdr + c0.len() + fs[i].len()) =~= fs[i]) by {
                    assert forall|k: int| 0 <= k < fs[i].len() implies data.subrange(
                        hdr + c0.len(),
                        hdr + c0.len() + fs[i].len(),
                    )[k] == fs[i][k] by {
                        assert(data.subrange(hdr, hdr + c.len())[c0.len() + k] == c[c0.len() + k]);
                    }
                }
            }
        }
        assert(frames_of(data, hdr, ls) =~= fs);
    } else {
        assert(frames_of(data, hdr, frame_lens(fs)) =~= fs);
    }
}

/// Padding-length bytes read back as the padding they declare: `r` bytes of
/// 255, then `last`.
pub(crate) proof fn lemma_skip_padding_read(data: Seq<u8>, pos: int, len: int, r: nat, last: u8)
    requires
        0 <= pos,
        pos + r + 1 <= data.len(),
        forall|k: int| pos <= k < pos + r ==> data[k] == 255u8,
        data[pos + r] == last,
        last != 255,
        len >= 255 * r + 1 + last,
    ensures
        skip_padding(data, pos, len) == Some((pos + r + 1, len - 255 * r - 1 - last)),
    decreases r,
{
    if r > 0 {
        assert(data[pos] == 255u8);
        lemma_skip_padding_read(data, pos + 1, len - 255, (r - 1) as nat, last);
    }
}

/// A repacketizer holds at most 48 frames, at most 5760 samples at 48 kHz.
pub(crate) proof fn lemma_hold_count(toc: u8, fs: Seq<Seq<u8>>)
    requires
        frames_hold(toc, fs),
    ensures
        fs.len() <= 48,
        spec_samples_per_frame(toc, 48000) * fs.len() <= 5760,
{
    lemma_samples_per_frame_rates(toc);
    let f = spec_samples_per_frame(toc, 8000);
    assert(fs.len() <= 48) by (nonlinear_arith)
        requires
            fs.len() * f <= 960,
            20 <= f,
    ;
    assert(6 * f * fs.len() <= 5760) by (nonlinear_arith)
        requires
            fs.len() * f <= 960,
    ;
}

/// What a written packet followed by `rest` parses back to: the frames
/// written, found where they were written.
pub open spec fn reads_back(out: Seq<u8>, rest: Seq<u8>, sd: bool, toc: u8, fs: Seq<Seq<u8>>) -> bool {
    let data = out + rest;
    &&& parse_model(data, sd) matches Some((hdr, sizes))
    &&& sizes == frame_lens(fs)
    &&& hdr + seq_sum(sizes) <= out.len()
    &&& sd ==> hdr + seq_sum(sizes) == out.len()
    &&& frames_of(data, hdr, sizes) == fs
    &&& data[0] / 4 == toc / 4
}

/// The frames lie back to back at `hdr`.
proof fn lemma_frames_at(data: Seq<u8>, hdr: int, fs: Seq<Seq<u8>>)
    requires
        0 <= hdr,
        hdr + concat_frames(fs).len() == data.len(),
        data.subrange(hdr, data.len() as int) == concat_frames(fs),
    ensures
        seq_sum(frame_lens(fs)) == concat_frames(fs).len(),
        frames_of(data, hdr, frame_lens(fs)) == fs,
{
    lemma_frames_of_concat(data, hdr, fs);
}

/// One frame (code 0) read back.
proof fn lemma_roundtrip_code0(toc: u8, fs: Seq<Seq<u8>>, sd: bool, rest: Seq<u8>)
    requires
        fs.len() == 1,
        frames_hold(toc, fs),
        !sd ==> rest.len() == 0,
    ensures
        reads_back(spec_out(toc, fs, None, sd), rest, sd, toc, fs),
{
    let out = spec_out(toc, fs, None, sd);
    let data = out + rest;
    let t = toc / 4 * 4;
    let l0 = fs[0].len() as int;
    assert(fs[0].len() <= 1275);
    let ls = frame_lens(fs);
    assert(ls =~= Seq::<int>::empty().push(l0));
    lemma_seq_sum_push(Seq::<int>::empty(), l0);
    lemma_concat_frames_small(fs);
    let sdc = if sd {
        size_code(l0)
    } else {
        Seq::<u8>::empty()
    };
    assert(out == seq![t as u8] + sdc + fs[0]);
    let hdr = 1 + sdc.len();
    let body = out.subrange(hdr as int, out.len() as int);
    assert(body =~= concat_frames(fs));
    lemma_frames_at(out, hdr as int, fs);
    assert(data[0] == t as u8);
    if sd {
        assert(data.subrange(1, 1 + sdc.len() as int) =~= sdc);
        lemma_size_code_read(data, 1, l0);
        assert(header_framing(data, sd) == Some((1int, data.len() - 1, false, data.len() - 1, Seq::<int>::empty(), 1int)));
        assert(parse_model(data, sd) == frames_fit(data, hdr as int, Seq::<int>::empty().push(l0)));
        assert forall|i: int| 0 <= i < 1 implies #[trigger] frames_of(data, hdr as int, ls)[i] == frames_of(out, hdr as int, ls)[i] by {
            assert(frames_of(data, hdr as int, ls)[i] =~= frames_of(out, hdr as int, ls)[i]);
        }
        assert(frames_of(data, hdr as int, ls) =~= frames_of(out, hdr as int, ls));
    } else {
        assert(data =~= out);
    }
}

/// Two frames of one length (code 1) read back.
proof fn lemma_roundtrip_code1(toc: u8, fs: Seq<Seq<u8>>, sd: bool, rest: Seq<u8>)
    requires
        fs.len() == 2,
        fs[0].len() == fs[1].len(),
        frames_hold(toc, fs),
        !sd ==> rest.len() == 0,
    ensures
        reads_back(spec_out(toc, fs, None, sd), rest, sd, toc, fs),
{
    let out = spec_out(toc, fs, None, sd);
    let data = out + rest;
    let t = toc / 4 * 4;
    let l = fs[0].len() as int;
    assert(fs[0].len() <= 1275);
    let ls = frame_lens(fs);
    assert(ls =~= seq![l].push(l));
    assert(seq![l] =~= Seq::<int>::empty().push(l));
    lemma_seq_sum_push(Seq::<int>::empty(), l);
    lemma_seq_sum_push(seq![l], l);
    lemma_concat_frames_small(fs);
    let sdc = if sd {
        size_code(l)
    } else {
        Seq::<u8>::empty()
    };
    assert(out == seq![(t + 1) as u8] + sdc + fs[0] + fs[1]);
    let hdr = 1 + sdc.len();
    let body = out.subrange(hdr as int, out.len() as int);
    assert(body =~= concat_frames(fs));
    lemma_frames_at(out, hdr as int, fs);
    assert(data[0] == (t + 1) as u8);
    if sd {
        assert(data.subrange(1, 1 + sdc.len() as int) =~= sdc);
        lemma_size_code_read(data, 1, l);
        assert(header_framing(data, sd) == Some((1int, data.len() - 1, true, data.len() - 1, Seq::<int>::empty(), 2int)));
        let b = sdc.len() as int;
        assert(read_size(data, 1) == Some((b, l)));
        assert(data.len() - 1 - b == 2 * l + rest.len());
        assert(l * 2 <= data.len() - 1 - b);
        let cs = Seq::new(2int as nat, |i: int| l);
        assert(cs =~= ls);
        assert(parse_model(data, sd) == frames_fit(data, 1 + b, cs));
        assert(parse_model(data, sd) == frames_fit(data, hdr as int, ls));
        assert forall|i: int| 0 <= i < 2 implies #[trigger] frames_of(data, hdr as int, ls)[i] == frames_of(out, hdr as int, ls)[i] by {
            assert(frames_of(data, hdr as int, ls)[i] =~= frames_of(out, hdr as int, ls)[i]);
        }
        assert(frames_of(data, hdr as int, ls) =~= frames_of(out, hdr as int, ls));
    } else {
        assert(data =~= out);
        assert(header_framing(data, sd) == Some((1int, 2 * l, true, l, seq![l], 2int)));
    }
}

/// Two frames of different lengths (code 2) read back.
proof fn lemma_roundtrip_code2(toc: u8, fs: Seq<Seq<u8>>, sd: bool, rest: Seq<u8>)
    requires
        fs.len() == 2,
        fs[0].len() != fs[1].len(),
        frames_hold(toc, fs),
        !sd ==> rest.len() == 0,
    ensures
        reads_back(spec_out(toc, fs, None, sd), rest, sd, toc, fs),
{
    let out = spec_out(toc, fs, None, sd);
    let data = out + rest;
    let t = toc / 4 * 4;
    let l0 = fs[0].len() as int;
    let l1 = fs[1].len() as int;
    assert(fs[0].len() <= 1275);
    assert(fs[1].len() <= 1275);
    let ls = frame_lens(fs);
    assert(ls =~= seq![l0].push(l1));
    assert(seq![l0] =~= Seq::<int>::empty().push(l0));
    lemma_seq_sum_push(Seq::<int>::empty(), l0);
    lemma_seq_sum_push(seq![l0], l1);
    lemma_concat_frames_small(fs);
    let c0 = size_code(l0);
    let sdc = if sd {
        size_code(l1)
    } else {
        Seq::<u8>::empty()
    };
    assert(out == seq![(t + 2) as u8] + c0 + sdc + fs[0] + fs[1]);
    let hdr = 1 + c0.len() + sdc.len();
    let body = out.subrange(hdr as int, out.len() as int);
    assert(body =~= concat_frames(fs));
    lemma_frames_at(out, hdr as int, fs);
    assert(data[0] == (t + 2) as u8);
    assert(data.subrange(1, 1 + c0.len() as int) =~= c0);
    lemma_size_code_read(data, 1, l0);
    let b0 = c0.len() as int;
    let len = data.len() - 1;
    assert(header_framing(data, sd) == Some((1 + b0, len - b0, false, len - b0 - l0, seq![l0], 2int)));
    if sd {
        assert(data.subrange(1 + b0, 1 + b0 + sdc.len() as int) =~= sdc);
        lemma_size_code_read(data, 1 + b0, l1);
        assert(parse_model(data, sd) == frames_fit(data, hdr as int, seq![l0].push(l1)));
        assert forall|i: int| 0 <= i < 2 implies #[trigger] frames_of(data, hdr as int, ls)[i] == frames_of(out, hdr as int, ls)[i] by {
            assert(frames_of(data, hdr as int, ls)[i] =~= frames_of(out, hdr as int, ls)[i]);
        }
        assert(frames_of(data, hdr as int, ls) =~= frames_of(out, hdr as int, ls));
    } else {
        assert(data =~= out);
    }
}

/// Summing pointwise sums.
pub(crate) proof fn lemma_seq_sum_add(a: Seq<int>, b: Seq<int>)
    requires
        a.len() == b.len(),
    ensures
        seq_sum(Seq::new(a.len(), |i: int| a[i] + b[i])) == seq_sum(a) + seq_sum(b),
    decreases a.len(),
{
    if a.len() > 0 {
        let s = Seq::new(a.len(), |i: int| a[i] + b[i]);
        assert(s.drop_last() =~= Seq::new(a.drop_last().len(), |i: int| a.drop_last()[i] + b.drop_last()[i]));
        lemma_seq_sum_add(a.drop_last(), b.drop_last());
    }
}

/// The sizes of a code-3 packet with varying sizes read back: the codes of
/// all but the last length, the self-delimiting length if any, then the
/// frames, then `extra` bytes (self-delimited only).
proof fn lemma_code3_tail_vbr(data: Seq<u8>, sd: bool, fs: Seq<Seq<u8>>, pos2: int, extra: int)
    requires
        fs.len() >= 2,
        forall|i: int| 0 <= i < fs.len() ==> (#[trigger] fs[i]).len() <= 1275,
        0 <= pos2,
        0 <= extra,
        !sd ==> extra == 0,
        ({
            let ls = frame_lens(fs);
            let codes = concat_codes(ls.drop_last());
            let sdc = if sd {
                size_code(ls.last())
            } else {
                Seq::<u8>::empty()
            };
            let cf = concat_frames(fs);
            let hdr = pos2 + codes.len() + sdc.len();
            &&& data.len() >= hdr + cf.len() + extra
            &&& data.subrange(pos2, pos2 + codes.len()) == codes
            &&& data.subrange(pos2 + codes.len(), hdr) == sdc
            &&& data.subrange(hdr, hdr + cf.len()) == cf
        }),
    ensures
        ({
            let ls = frame_lens(fs);
            let codes = concat_codes(ls.drop_last());
            let sdc = if sd {
                size_code(ls.last())
            } else {
                Seq::<u8>::empty()
            };
            let cf = concat_frames(fs);
            let hdr = pos2 + codes.len() + sdc.len();
            let len2 = codes.len() + sdc.len() + cf.len() + extra;
            &&& code3_sizes(data, sd, pos2, len2, fs.len() as int, true) is Some
            &&& finish_parse(data, sd, code3_sizes(data, sd, pos2, len2, fs.len() as int, true).unwrap())
                == Some((hdr, ls))
            &&& seq_sum(ls) == cf.len()
            &&& frames_of(data, hdr, ls) == fs
        }),
{
    let n = fs.len() as int;
    let ls = frame_lens(fs);
    let init = ls.drop_last();
    let ll = ls.last();
    let codes = concat_codes(init);
    let sdc = if sd {
        size_code(ll)
    } else {
        Seq::<u8>::empty()
    };
    let cf = concat_frames(fs);
    let hdr = pos2 + codes.len() + sdc.len();
    let len2 = codes.len() + sdc.len() + cf.len() + extra;
    assert forall|i: int| 0 <= i < init.len() implies 0 <= #[trigger] init[i] <= 1275 by {
        assert(init[i] == fs[i].len());
    }
    assert(fs[n - 1].len() <= 1275);
    lemma_concat_codes_read(data, pos2, init);
    let ps = read_sizes(data, pos2, (n - 1) as nat).unwrap();
    lemma_frames_of_concat(data, hdr, fs);
    assert(ls =~= init.push(ll));
    lemma_seq_sum_push(init, ll);
    let last = len2 - code_bytes(ps) - seq_sum(code_lens(ps));
    assert(last == sdc.len() + ll + extra);
    assert(code3_sizes(data, sd, pos2, len2, n, true) == Some(
        (pos2 + codes.len(), len2 - codes.len(), false, last, init, n),
    ));
    if sd {
        lemma_size_code_read(data, pos2 + codes.len(), ll);
    }
}

/// The sizes of a code-3 packet of equal-size frames read back: the
/// self-delimiting length if any, then the frames, then `extra` bytes
/// (self-delimited only).
proof fn lemma_code3_tail_cbr(data: Seq<u8>, sd: bool, fs: Seq<Seq<u8>>, pos2: int, extra: int)
    requires
        fs.len() >= 1,
        all_same_len(fs),
        forall|i: int| 0 <= i < fs.len() ==> (#[trigger] fs[i]).len() <= 1275,
        0 <= pos2,
        0 <= extra,
        !sd ==> extra == 0,
        ({
            let ls = frame_lens(fs);
            let sdc = if sd {
                size_code(ls.last())
            } else {
                Seq::<u8>::empty()
            };
            let cf = concat_frames(fs);
            let hdr = pos2 + sdc.len();
            &&& data.len() >= hdr + cf.len() + extra
            &&& data.subrange(pos2, hdr) == sdc
            &&& data.subrange(hdr, hdr + cf.len()) == cf
        }),
    ensures
        ({
            let ls = frame_lens(fs);
            let sdc = if sd {
                size_code(ls.last())
            } else {
                Seq::<u8>::empty()
            };
            let cf = concat_frames(fs);
            let hdr = pos2 + sdc.len();
            let len2 = sdc.len() + cf.len() + extra;
            &&& code3_sizes(data, sd, pos2, len2, fs.len() as int, false) is Some
            &&& finish_parse(data, sd, code3_sizes(data, sd, pos2, len2, fs.len() as int, false).unwrap())
                == Some((hdr, ls))
            &&& seq_sum(ls) == cf.len()
            &&& frames_of(data, hdr, ls) == fs
        }),
{
    let n = fs.len() as int;
    let ls = frame_lens(fs);
    let l0 = fs[0].len() as int;
    assert(fs[0].len() <= 1275);
    let sdc = if sd {
        size_code(ls.last())
    } else {
        Seq::<u8>::empty()
    };
    let cf = concat_frames(fs);
    let hdr = pos2 + sdc.len();
    let len2 = sdc.len() + cf.len() + extra;
    assert(ls =~= Seq::new(n as nat, |i: int| l0));
    lemma_seq_sum_const(n as nat, l0);
    lemma_frames_of_concat(data, hdr, fs);
    assert(cf.len() == n * l0);
    assert(n * l0 >= l0 && l0 * n == n * l0) by (nonlinear_arith)
        requires
            n >= 1,
            l0 >= 0,
    ;
    if sd {
        assert(ls.last() == l0);
        lemma_size_code_read(data, pos2, l0);
        assert(code3_sizes(data, sd, pos2, len2, n, false) == Some(
            (pos2, len2, true, len2, Seq::<int>::empty(), n),
        ));
    } else {
        assert((n * l0) / n == l0) by (nonlinear_arith)
            requires
                n >= 1,
        ;
        assert(len2 == n * l0);
        assert(code3_sizes(data, sd, pos2, len2, n, false) == Some(
            (pos2, len2, true, l0, Seq::new((n - 1) as nat, |i: int| l0), n),
        ));
        assert(Seq::new((n - 1) as nat, |i: int| l0).push(l0) =~= ls);
    }
}

/// The unpadded code-3 size is the two header bytes, the length codes (when
/// sizes vary) and the frames.
#[verifier::spinoff_prover]
#[verifier::rlimit(30)]
pub(crate) proof fn lemma_code3_size_parts(fs: Seq<Seq<u8>>, vbr: bool)
    requires
        fs.len() >= 1,
        vbr == !all_same_len(fs),
        forall|i: int| 0 <= i < fs.len() ==> (#[trigger] fs[i]).len() <= 1275,
    ensures
        vbr ==> fs.len() >= 2,
        code3_size(fs, vbr) == 2 + (if vbr {
            concat_codes(frame_lens(fs).drop_last()).len() as int
        } else {
            0
        }) + concat_frames(fs).len(),
{
    let n = fs.len() as int;
    let ls = frame_lens(fs);
    let init = ls.drop_last();
    let ll = ls.last();
    let cf = concat_frames(fs);
    assert(cf.subrange(0, cf.len() as int) =~= cf);
    lemma_frames_of_concat(cf, 0, fs);
    if vbr {
        assert(n >= 2) by {
            if n < 2 {
                assert(all_same_len(fs));
            }
        }
        assert forall|i: int| 0 <= i < init.len() implies 0 <= #[trigger] init[i] <= 1275 by {
            assert(init[i] == fs[i].len());
        }
        let codes = concat_codes(init);
        assert(codes.subrange(0, codes.len() as int) =~= codes);
        lemma_concat_codes_read(codes, 0, init);
        let w = code_len_seq(init);
        lemma_seq_sum_add(w, init);
        assert(Seq::new((n - 1) as nat, |i: int| size_code_len(fs[i].len() as int) + fs[i].len())
            =~= Seq::new(w.len(), |i: int| w[i] + init[i]));
        assert(ls =~= init.push(ll));
        lemma_seq_sum_push(init, ll);
    } else {
        let l0 = fs[0].len() as int;
        assert(ls =~= Seq::new(n as nat, |i: int| l0));
        lemma_seq_sum_const(n as nat, l0);
    }
}

/// The padding-length bytes after the count byte read back.
proof fn lemma_code3_padding(data: Seq<u8>, pad: int)
    requires
        pad > 0,
        2 + padding_code(pad).len() <= data.len(),
        data.len() - 2 >= pad,
        data.subrange(2, 2 + padding_code(pad).len() as int) == padding_code(pad),
    ensures
        padding_code(pad).len() <= pad,
        skip_padding(data, 2, data.len() - 2) == Some((2 + padding_code(pad).len() as int, data.len() - 2 - pad)),
{
    let pc = padding_code(pad);
    let nb = (pad - 1) / 255;
    let last = (pad - 255 * nb - 1) as u8;
    assert(pc.len() == nb + 1);
    assert forall|k: int| 2 <= k < 2 + nb implies data[k] == 255u8 by {
        assert(data.subrange(2, 2 + pc.len() as int)[k - 2] == pc[k - 2]);
    }
    assert(data.subrange(2, 2 + pc.len() as int)[nb] == pc[nb]);
    lemma_skip_padding_read(data, 2, data.len() - 2, nb as nat, last);
}

/// TOC bytes of one configuration declare the same frame size.
pub proof fn lemma_samples_per_frame_config(a: u8, b: u8, fs: i32)
    requires
        a / 8 == b / 8,
    ensures
        spec_samples_per_frame(a, fs) == spec_samples_per_frame(b, fs),
{
    reveal(spec_samples_per_frame);
    assert(a >= 128 <==> b >= 128);
    assert((a / 32) % 4 == (b / 32) % 4);
    assert((a / 8) % 2 == (b / 8) % 2);
    assert((a / 8) % 4 == (b / 8) % 4);
}

/// The fields of the count byte of a code-3 packet.
proof fn lemma_count_byte(n: int, vbr: bool, pad: bool)
    requires
        1 <= n <= 48,
    ensures
        ({
            let ch = (n + (if vbr {
                128int
            } else {
                0
            }) + (if pad {
                64int
            } else {
                0
            })) as u8;
            &&& ch % 64 == n
            &&& ((ch / 64) % 2 == 1) == pad
            &&& (ch >= 128) == vbr
        }),
{
}

/// The TOC and count bytes and the padding of a code-3 packet read back:
/// the header framing is then that of the sizes after the padding.
#[verifier::spinoff_prover]
proof fn lemma_code3_header(data: Seq<u8>, sd: bool, toc: u8, n: int, vbr: bool, pad: int, tail: int)
    requires
        1 <= n <= 48,
        spec_samples_per_frame(toc, 48000) * n <= 5760,
        vbr ==> n >= 2,
        pad >= 0,
        tail >= 0,
        data.len() == 2 + (if pad > 0 {
            pad
        } else {
            0
        }) + tail,
        data[0] == (toc / 4 * 4 + 3) as u8,
        data[1] == (n + (if vbr {
            128int
        } else {
            0
        }) + (if pad > 0 {
            64int
        } else {
            0
        })) as u8,
        pad > 0 ==> 2 + padding_code(pad).len() <= data.len() && data.subrange(
            2,
            2 + padding_code(pad).len() as int,
        ) == padding_code(pad),
    ensures
        header_framing(data, sd) == code3_sizes(
            data,
            sd,
            2 + (if pad > 0 {
                padding_code(pad).len() as int
            } else {
                0
            }),
            tail,
            n,
            vbr,
        ),
{
    lemma_samples_per_frame_config(data[0], toc, 48000);
    lemma_count_byte(n, vbr, pad > 0);
    let ch = data[1];
    assert(ch % 64 == n);
    assert(data[0] % 4 == 3);
    let len = data.len() - 2;
    let padded = if (ch / 64) % 2 == 1 {
        skip_padding(data, 2, len)
    } else {
        Some((2int, len))
    };
    if pad > 0 {
        lemma_code3_padding(data, pad);
        assert(padded == Some((2 + padding_code(pad).len() as int, tail)));
    } else {
        assert(padded == Some((2int, tail)));
    }
    assert(code3_framing(data, sd, data.len() - 1) == code3_sizes(data, sd, padded.unwrap().0, padded.unwrap().1, n, ch >= 128));
}

/// A piece of a prefix is the same piece of the whole.
proof fn lemma_subrange_of_prefix(data: Seq<u8>, body: Seq<u8>, a: int, b: int)
    requires
        body.len() <= data.len(),
        data.subrange(0, body.len() as int) == body,
        0 <= a <= b <= body.len(),
    ensures
        data.subrange(a, b) == body.subrange(a, b),
{
    assert(data.subrange(a, b) =~= body.subrange(a, b)) by {
        assert forall|k: int| 0 <= k < b - a implies data.subrange(a, b)[k] == body.subrange(a, b)[k] by {
            assert(data.subrange(0, body.len() as int)[a + k] == body[a + k]);
        }
    }
}

/// Where the pieces of a code-3 packet lie, followed by `rest`.
#[verifier::spinoff_prover]
proof fn lemma_code3_layout(toc: u8, fs: Seq<Seq<u8>>, pad_to: Option<usize>, sd: bool, rest: Seq<u8>)
    requires
        fs.len() > 2 || pad_to is Some,
        fs.len() >= 1,
        sd ==> pad_to is None,
        code3_size(fs, !all_same_len(fs)) == 2 + code3_codes(fs).len() + concat_frames(fs).len(),
    ensures
        ({
            let data = spec_out(toc, fs, pad_to, sd) + rest;
            let pad = code3_pad(fs, pad_to);
            let pos2 = 2 + code3_padhdr(fs, pad_to).len() as int;
            let c = code3_codes(fs).len() as int;
            let hdr = pos2 + c + sd_code(fs, sd).len() as int;
            let f = concat_frames(fs).len() as int;
            let len2 = c + sd_code(fs, sd).len() + f + rest.len();
            &&& data.len() == 2 + (if pad > 0 {
                pad
            } else {
                0
            }) + len2
            &&& data.len() >= hdr + f + rest.len()
            &&& hdr + f <= spec_out(toc, fs, pad_to, sd).len()
            &&& sd ==> hdr + f == spec_out(toc, fs, pad_to, sd).len()
            &&& data[0] == (toc / 4 * 4 + 3) as u8
            &&& data[1] == code3_count_byte(fs, pad_to)
            &&& pad > 0 ==> 2 + padding_code(pad).len() <= data.len() && data.subrange(
                2,
                2 + padding_code(pad).len() as int,
            ) == padding_code(pad)
            &&& data.subrange(pos2, pos2 + c) == code3_codes(fs)
            &&& data.subrange(pos2 + c, hdr) == sd_code(fs, sd)
            &&& data.subrange(hdr, hdr + f) == concat_frames(fs)
        }),
{
    let pad = code3_pad(fs, pad_to);
    let body = code3_body(toc, fs, pad_to, sd);
    let out = spec_out(toc, fs, pad_to, sd);
    let data = out + rest;
    let ph = code3_padhdr(fs, pad_to);
    let codes = code3_codes(fs);
    let sdc = sd_code(fs, sd);
    let cf = concat_frames(fs);
    let pos2 = 2 + ph.len() as int;
    let hdr = pos2 + codes.len() as int + sdc.len() as int;
    assert(fs[fs.len() - 1].len() == frame_lens(fs).last());
    assert(body.len() == hdr + cf.len() as int);
    if pad > 0 {
        assert(ph.len() == (pad - 1) / 255 + 1);
        assert(!sd);
        assert(sdc.len() == 0);
        assert(ph.len() <= pad);
        assert(body.len() <= pad_to.unwrap());
        assert(out.len() == pad_to.unwrap());
    } else {
        assert(out =~= body);
    }
    assert(data.subrange(0, body.len() as int) =~= body) by {
        assert forall|k: int| 0 <= k < body.len() implies data.subrange(0, body.len() as int)[k] == body[k] by {
            assert(data[k] == out[k]);
        }
    }
    assert(body.subrange(2, pos2) =~= ph);
    assert(body.subrange(pos2, pos2 + codes.len() as int) =~= codes);
    assert(body.subrange(pos2 + codes.len() as int, hdr) =~= sdc);
    assert(body.subrange(hdr, hdr + cf.len() as int) =~= cf);
    lemma_subrange_of_prefix(data, body, 2, pos2);
    lemma_subrange_of_prefix(data, body, pos2, pos2 + codes.len() as int);
    lemma_subrange_of_prefix(data, body, pos2 + codes.len() as int, hdr);
    lemma_subrange_of_prefix(data, body, hdr, hdr + cf.len() as int);
    assert(data[0] == body[0]);
    assert(data[1] == body[1]);
}

/// More than two frames, or padding (code 3), read back.
#[verifier::spinoff_prover]
#[verifier::rlimit(80)]
proof fn lemma_roundtrip_code3(toc: u8, fs: Seq<Seq<u8>>, pad_to: Option<usize>, sd: bool, rest: Seq<u8>)
    requires
        fs.len() > 2 || pad_to is Some,
        fs.len() >= 1,
        frames_hold(toc, fs),
        sd ==> pad_to is None,
        !sd ==> rest.len() == 0,
    ensures
        reads_back(spec_out(toc, fs, pad_to, sd), rest, sd, toc, fs),
{
    let n = fs.len() as int;
    lemma_hold_count(toc, fs);
    let vbr = !all_same_len(fs);
    lemma_code3_size_parts(fs, vbr);
    lemma_code3_layout(toc, fs, pad_to, sd, rest);
    let data = spec_out(toc, fs, pad_to, sd) + rest;
    let pad = code3_pad(fs, pad_to);
    let pos2 = 2 + code3_padhdr(fs, pad_to).len() as int;
    let c = code3_codes(fs).len() as int;
    let len2 = c + sd_code(fs, sd).len() + concat_frames(fs).len() + rest.len();
    lemma_code3_header(data, sd, toc, n, vbr, pad, len2);
    if vbr {
        lemma_code3_tail_vbr(data, sd, fs, pos2, rest.len() as int);
    } else {
        lemma_code3_tail_cbr(data, sd, fs, pos2, rest.len() as int);
    }
}

/// The central law of packet framing: a packet written from frames a
/// repacketizer may hold parses back to exactly those frames, whatever the
/// code chosen and whatever padding was added. A self-delimited packet does
/// so whatever bytes follow it, and its layout ends where the packet ends.
pub proof fn lemma_out_parse_roundtrip(toc: u8, fs: Seq<Seq<u8>>, pad_to: Option<usize>, sd: bool, rest: Seq<u8>)
    requires
        fs.len() >= 1,
        frames_hold(toc, fs),
        sd ==> pad_to is None,
        !sd ==> rest.len() == 0,
    ensures
        reads_back(spec_out(toc, fs, pad_to, sd), rest, sd, toc, fs),
{
    if fs.len() > 2 || pad_to is Some {
        lemma_roundtrip_code3(toc, fs, pad_to, sd, rest);
    } else if fs.len() == 1 {
        lemma_roundtrip_code0(toc, fs, sd, rest);
    } else if fs[0].len() == fs[1].len() {
        lemma_roundtrip_code1(toc, fs, sd, rest);
    } else {
        lemma_roundtrip_code2(toc, fs, sd, rest);
    }
}

/// Padding to a length no shorter than the unpadded code-3 packet gives a
/// packet of exactly that length.
pub proof fn lemma_padded_len(toc: u8, fs: Seq<Seq<u8>>, m: usize)
    requires
        fs.len() >= 1,
        forall|i: int| 0 <= i < fs.len() ==> (#[trigger] fs[i]).len() <= 1275,
        code3_size(fs, !all_same_len(fs)) <= m,
    ensures
        spec_out(toc, fs, Some(m), false).len() == m,
{
    lemma_code3_size_parts(fs, !all_same_len(fs));
    lemma_code3_layout(toc, fs, Some(m), false, Seq::empty());
    assert(spec_out(toc, fs, Some(m), false) + Seq::<u8>::empty() =~= spec_out(toc, fs, Some(m), false));
}

/// The header of a parsed packet is at least as long as the code-3 header
/// that would carry its frames: one byte more than the TOC byte, and, when
/// the sizes vary, room for the length codes of all frames but the last.
pub(crate) proof fn lemma_parse_header_room(data: Seq<u8>)
    requires
        parse_model(data, false) is Some,
    ensures
        ({
            let (hdr, sizes) = parse_model(data, false).unwrap();
            &&& hdr >= 1
            &&& (exists|i: int| 0 <= i < sizes.len() && #[trigger] sizes[i] != sizes[0]) ==> hdr >= 1 + seq_sum(
                code_len_seq(sizes.drop_last()),
            )
            &&& data[0] % 4 == 3 ==> hdr >= 2
            &&& data[0] % 4 == 3 && (exists|i: int| 0 <= i < sizes.len() && #[trigger] sizes[i] != sizes[0])
                ==> hdr >= 2 + seq_sum(code_len_seq(sizes.drop_last()))
        }),
{
    let (hdr, sizes) = parse_model(data, false).unwrap();
    let f = header_framing(data, false).unwrap();
    let (pos, len, cbr, last, pre, count) = f;
    let code = data[0] % 4;
    lemma_parse_model_facts(data, false);
    assert(sizes == pre.push(last));
    assert(sizes.drop_last() =~= pre);
    if code == 0 {
        assert(pre.len() == 0);
    } else if code == 1 {
        assert(sizes =~= seq![len / 2, len / 2]);
    } else if code == 2 {
        lemma_read_size_bounds(data, 1);
        let (b, s0) = read_size(data, 1).unwrap();
        assert(pre =~= seq![s0]);
        assert(code_len_seq(pre) =~= Seq::<int>::empty().push(size_code_len(s0)));
        lemma_seq_sum_push(Seq::<int>::empty(), size_code_len(s0));
    } else {
        let ch = data[1];
        let l1 = data.len() - 2;
        if (ch / 64) % 2 == 1 {
            lemma_skip_padding_bounds(data, 2, l1);
        }
        let padded = if (ch / 64) % 2 == 1 {
            skip_padding(data, 2, l1)
        } else {
            Some((2int, l1))
        };
        let (p2, l2) = padded.unwrap();
        assert(p2 >= 2);
        if ch >= 128 {
            let n = ((ch % 64) - 1) as nat;
            lemma_read_sizes_bounds(data, p2, n);
            let ps = read_sizes(data, p2, n).unwrap();
            assert(pre == code_lens(ps));
            assert(code_len_seq(pre) =~= code_widths(ps)) by {
                assert forall|i: int| 0 <= i < pre.len() implies code_len_seq(pre)[i] == code_widths(ps)[i] by {
                    assert(ps[i].0 == size_code_len(ps[i].1));
                }
            }
        } else {
            assert forall|i: int| 0 <= i < sizes.len() implies #[trigger] sizes[i] == sizes[0] by {}
        }
    }
}

/// The frames of a parsed packet: as many as the packet declares, each of
/// the length its layout gives, at most 1275 bytes.
pub(crate) proof fn lemma_packet_frames_facts(data: Seq<u8>, sd: bool)
    requires
        parse_model(data, sd) is Some,
    ensures
        ({
            let (hdr, sizes) = parse_model(data, sd).unwrap();
            let fs = packet_frames(data, sd).unwrap();
            &&& fs.len() == sizes.len()
            &&& spec_nb_frames(data) == Some(fs.len() as int)
            &&& frame_lens(fs) == sizes
            &&& forall|i: int| 0 <= i < fs.len() ==> (#[trigger] fs[i]).len() <= 1275
        }),
{
    let (hdr, sizes) = parse_model(data, sd).unwrap();
    let fs = frames_of(data, hdr, sizes);
    lemma_parse_model_facts(data, sd);
    assert forall|i: int| 0 <= i < sizes.len() implies frame_offset(hdr, sizes, i) + sizes[i] <= data.len()
        && 0 <= frame_offset(hdr, sizes, i) by {
        lemma_seq_sum_take_step(sizes, i);
        lemma_seq_sum_prefix_le(sizes, i + 1);
        lemma_seq_sum_nonneg(sizes.take(i));
        assert forall|k: int| 0 <= k < sizes.take(i).len() implies 0 <= #[trigger] sizes.take(i)[k] by {
            assert(sizes.take(i)[k] == sizes[k]);
        }
    }
    assert(frame_lens(fs) =~= sizes);
    assert forall|i: int| 0 <= i < fs.len() implies (#[trigger] fs[i]).len() <= 1275 by {
        assert(fs[i].len() == sizes[i]);
    }
}

/// The unpadded code-3 packet carrying the frames of a packet is at most one
/// byte longer than the packet.
#[verifier::spinoff_prover]
#[verifier::rlimit(40)]
pub(crate) proof fn lemma_code3_size_of_parsed(data: Seq<u8>)
    requires
        parse_model(data, false) is Some,
    ensures
        ({
            let fs = packet_frames(data, false).unwrap();
            &&& fs.len() >= 1
            &&& forall|i: int| 0 <= i < fs.len() ==> (#[trigger] fs[i]).len() <= 1275
            &&& code3_size(fs, !all_same_len(fs)) <= data.len() + 1
            &&& data[0] % 4 == 3 ==> code3_size(fs, !all_same_len(fs)) <= data.len()
        }),
{
    let (hdr, sizes) = parse_model(data, false).unwrap();
    let fs = frames_of(data, hdr, sizes);
    lemma_packet_frames_facts(data, false);
    lemma_parse_header_room(data);
    assert(fs.len() >= 1) by {
        if data[0] % 4 == 3 {
            assert(sizes.len() == data[1] % 64);
        }
    }
    let vbr = !all_same_len(fs);
    lemma_code3_size_parts(fs, vbr);
    let cf = concat_frames(fs);
    assert(cf.subrange(0, cf.len() as int) =~= cf);
    lemma_frames_of_concat(cf, 0, fs);
    if vbr {
        let j = choose|j: int| 0 <= j < fs.len() && !(#[trigger] fs[j].len() == fs[0].len());
        assert(sizes[j] != sizes[0]);
        let init = sizes.drop_last();
        assert forall|i: int| 0 <= i < init.len() implies 0 <= #[trigger] init[i] <= 1275 by {}
        let codes = concat_codes(init);
        assert(codes.subrange(0, codes.len() as int) =~= codes);
        lemma_concat_codes_read(codes, 0, init);
    }
}

/// Without padding, the frames of a packet read without self-delimiting
/// end at its last byte.
pub(crate) proof fn lemma_nonsd_layout_end(data: Seq<u8>)
    requires
        parse_model(data, false) is Some,
        data[0] % 4 == 3 ==> (data[1] / 64) % 2 == 0,
    ensures
        ({
            let (hdr, sizes) = parse_model(data, false).unwrap();
            hdr + seq_sum(sizes) == data.len()
        }),
{
    let (hdr, sizes) = parse_model(data, false).unwrap();
    let f = header_framing(data, false).unwrap();
    let (pos, len, cbr, last, pre, count) = f;
    let code = data[0] % 4;
    assert(sizes == pre.push(last));
    lemma_seq_sum_push(pre, last);
    if code == 0 {
        assert(pre =~= Seq::<int>::empty());
    } else if code == 1 {
        assert(pre =~= Seq::<int>::empty().push(len / 2));
        lemma_seq_sum_push(Seq::<int>::empty(), len / 2);
    } else if code == 2 {
        let (b, s0) = read_size(data, 1).unwrap();
        assert(pre =~= Seq::<int>::empty().push(s0));
        lemma_seq_sum_push(Seq::<int>::empty(), s0);
    } else {
        let ch = data[1];
        let l1 = data.len() - 2;
        assert(header_framing(data, false) == code3_framing(data, false, data.len() - 1));
        assert(count == (ch % 64) as int);
        assert(code3_framing(data, false, data.len() - 1) == code3_sizes(data, false, 2, l1, count, ch >= 128));
        assert(hdr == pos);
        if ch >= 128 {
            let m = (count - 1) as nat;
            let ps = read_sizes(data, 2, m).unwrap();
            assert(pre == code_lens(ps));
            assert(pos == 2 + code_bytes(ps));
            assert(last == l1 - code_bytes(ps) - seq_sum(code_lens(ps)));
        } else {
            assert(pos == 2);
            assert(last == l1 / count);
            assert(last * count == l1);
            assert(pre == Seq::new((count - 1) as nat, |i: int| last));
            lemma_seq_sum_const((count - 1) as nat, last);
            assert(seq_sum(pre) + last == last * count) by (nonlinear_arith)
                requires
                    seq_sum(pre) == (count - 1) * last,
            ;
        }
    }
}

/// An unpadded packet a repacketizer writes without self-delimiting ends
/// where its frames end: its layout takes the packet to its last byte, and
/// a code-3 packet has the padding flag clear.
#[verifier::spinoff_prover]
pub proof fn lemma_unpadded_layout_end(toc: u8, fs: Seq<Seq<u8>>)
    requires
        fs.len() >= 1,
        frames_hold(toc, fs),
    ensures
        ({
            let out = spec_out(toc, fs, None, false);
            &&& parse_model(out, false) matches Some((hdr, sizes))
            &&& hdr + seq_sum(sizes) == out.len()
            &&& out[0] % 4 == 3 ==> (out[1] / 64) % 2 == 0
        }),
{
    let out = spec_out(toc, fs, None, false);
    lemma_out_parse_roundtrip(toc, fs, None, false, Seq::empty());
    assert(out + Seq::<u8>::empty() =~= out);
    lemma_hold_count(toc, fs);
    let t = toc / 4 * 4;
    let n = fs.len();
    if n > 2 {
        assert(code3_pad(fs, None) == 0);
        let cb = code3_count_byte(fs, None);
        assert(out[0] == (t + 3) as u8);
        assert(out[1] == cb);
        assert((cb / 64) % 2 == 0);
        assert(out[0] % 4 == 3);
    } else if n == 1 {
        assert(out[0] == t as u8);
    } else if fs[0].len() == fs[1].len() {
        assert(out[0] == (t + 1) as u8);
    } else {
        assert(out[0] == (t + 2) as u8);
    }
    lemma_nonsd_layout_end(out);
}

/// A packet that parses holds at most 120 ms: its frames together are at
/// most 5760 samples at 48 kHz (960 at 8 kHz).
pub proof fn lemma_parsed_duration(data: Seq<u8>, sd: bool)
    requires
        parse_model(data, sd) is Some,
    ensures
        ({
            let (hdr, sizes) = parse_model(data, sd).unwrap();
            &&& sizes.len() * spec_samples_per_frame(data[0], 48000) <= 5760
            &&& sizes.len() * spec_samples_per_frame(data[0], 8000) <= 960
        }),
{
    let (hdr, sizes) = parse_model(data, sd).unwrap();
    lemma_parse_model_facts(data, sd);
    lemma_samples_per_frame_rates(data[0]);
    let f = spec_samples_per_frame(data[0], 8000);
    let n = sizes.len() as int;
    if data[0] % 4 == 3 {
        assert(spec_samples_per_frame(data[0], 48000) * n <= 5760);
    } else {
        assert(n <= 2);
    }
    assert(n * f <= 960) by (nonlinear_arith)
        requires
            n <= 2 || 6 * f * n <= 5760,
            f <= 480,
            n >= 0,
    ;
    assert(n * (6 * f) <= 5760) by (nonlinear_arith)
        requires
            n * f <= 960,
    ;
}

/// A written packet parses back to the frames it was written from.
pub proof fn lemma_out_frames(toc: u8, fs: Seq<Seq<u8>>, pad_to: Option<usize>)
    requires
        fs.len() >= 1,
        frames_hold(toc, fs),
    ensures
        packet_frames(spec_out(toc, fs, pad_to, false), false) == Some(fs),
{
    lemma_out_parse_roundtrip(toc, fs, pad_to, false, Seq::empty());
    let out = spec_out(toc, fs, pad_to, false);
    assert(out + Seq::<u8>::empty() =~= out);
}

/// Frames a repacketizer may hold: any run of them may be held too.
pub(crate) proof fn lemma_frames_hold_subrange(toc: u8, fs: Seq<Seq<u8>>, begin: int, end: int)
    requires
        frames_hold(toc, fs),
        0 <= begin <= end <= fs.len(),
    ensures
        frames_hold(toc, fs.subrange(begin, end)),
{
    lemma_samples_per_frame_rates(toc);
    let f = spec_samples_per_frame(toc, 8000);
    assert((end - begin) * f <= fs.len() * f) by (nonlinear_arith)
        requires
            0 <= end - begin <= fs.len(),
            0 <= f,
    ;
    assert forall|i: int| 0 <= i < end - begin implies (#[trigger] fs.subrange(begin, end)[i]).len() <= 1275 by {
        assert(fs.subrange(begin, end)[i] == fs[begin + i]);
    }
}

} // verus!
