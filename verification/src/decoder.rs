//! How the decoder splits a packet into the frames it decodes: the payload of a code-0 packet, the halves of a code-1 packet,
//! the two coded frames of a code-2 packet and the frames of a code-3
//! packet, with its padding taken off.

use vstd::prelude::*;
use crate::framing::{
    all_nonneg, code_bytes, code_lens, code_widths, frame_offset, lemma_seq_sum_const,
    lemma_read_sizes_bounds, lemma_samples_per_frame_rates, spec_samples_per_frame, lemma_seq_sum_prefix_le,
    lemma_seq_sum_push, lemma_seq_sum_take_step, parse_model, read_size, read_sizes, seq_sum,
    skip_padding, frames_hold, frames_of, lemma_out_parse_roundtrip, spec_out,
};
use crate::toc::read_opus_frame_len;
use crate::{Bandwidth, OpusMode};

verus! {

/// The padding-length bytes of a code-3 packet read from `ptr`, with `pad`
/// bytes of padding counted so far: each 255 adds 254 bytes and continues,
/// any other value `p` adds `p` and ends. Gives the position after them and
/// the padding total, or `None` when the packet ends first.
pub open spec fn decode_padding(input: Seq<u8>, ptr: int, pad: int) -> Option<(int, int)>
    decreases input.len() - ptr,
{
    if ptr < 0 || ptr >= input.len() {
        None
    } else if input[ptr] == 255 {
        decode_padding(input, ptr + 1, pad + 254)
    } else {
        Some((ptr + 1, pad + input[ptr]))
    }
}

/// Reads `n` consecutive frame-length codes from the start of `region`:
/// the (bytes used, length) of each, or the error of the first that runs
/// past the end.
pub open spec fn read_lens(region: Seq<u8>, n: nat) -> Result<Seq<(int, int)>, &'static str>
    decreases n,
{
    if n == 0 {
        Ok(Seq::empty())
    } else {
        match read_lens(region, (n - 1) as nat) {
            Err(e) => Err(e),
            Ok(ps) => {
                let pos = code_bytes(ps);
                match read_size(region, pos) {
                    None => Err(
                        if pos >= region.len() {
                            "Opus frame length: truncated"
                        } else {
                            "Opus frame length: truncated 2-byte"
                        },
                    ),
                    Some(x) => Ok(ps.push(x)),
                }
            },
        }
    }
}

/// The frames of a code-3 packet whose frame data (length codes first, for
/// varying sizes) lies in `ptr..end`: `m` frames of coded lengths and a last
/// frame that takes the rest, or `m` frames of equal length.
pub open spec fn code3_frames(input: Seq<u8>, ptr: int, end: int, m: int, vbr: bool) -> Result<
    Seq<(int, int)>,
    &'static str,
> {
    let region = input.subrange(ptr, end);
    let rl = end - ptr;
    if vbr {
        match read_lens(region, (m - 1) as nat) {
            Err(e) => Err(e),
            Ok(ps) => {
                let hp = code_bytes(ps);
                let lens = code_lens(ps);
                if hp + seq_sum(lens) > rl {
                    Err("Code 3 VBR: frame length exceeds packet")
                } else {
                    Ok(
                        Seq::new(
                            m as nat,
                            |i: int|
                                if i < m - 1 {
                                    (ptr + hp + seq_sum(lens.take(i)), lens[i])
                                } else {
                                    (ptr + hp + seq_sum(lens), rl - hp - seq_sum(lens))
                                },
                        ),
                    )
                }
            },
        }
    } else if rl % m != 0 {
        Err("Code 3 CBR: frame data not divisible by frame count")
    } else {
        Ok(Seq::new(m as nat, |i: int| (ptr + i * (rl / m), rl / m)))
    }
}

/// The frames of a code-3 packet: count byte (frame count 1..=48, padding
/// flag, varying-size flag), padding-length bytes, then the frame data
/// with the padding at the end of the packet.
pub open spec fn spec_split_code3(input: Seq<u8>) -> Result<Seq<(int, int)>, &'static str> {
    let n = input.len() as int;
    if n < 2 {
        Err("Code 3 packet too short")
    } else {
        let cb = input[1];
        let m = (cb % 64) as int;
        if m < 1 || m > 48 {
            Err("Code 3: invalid frame count")
        } else {
            let padded = if (cb / 64) % 2 == 1 {
                decode_padding(input, 2, 0)
            } else {
                Some((2int, 0int))
            };
            match padded {
                None => Err("Code 3: padding overflow"),
                Some((ptr, pad)) => if pad > n || ptr > n - pad {
                    Err("Code 3: padding exceeds packet")
                } else {
                    code3_frames(input, ptr, n - pad, m, cb >= 128)
                },
            }
        }
    }
}

/// The frames the decoder reads from a packet, as (offset, length) pairs:
/// code 0 is one frame, code 1 two equal halves (an odd payload has none,
/// and is refused), code 2 a coded first length and the rest, code 3 its
/// declared frames.
pub open spec fn spec_split_frames(input: Seq<u8>) -> Result<Seq<(int, int)>, &'static str> {
    let n = input.len() as int;
    let code = input[0] % 4;
    if code == 0 {
        Ok(seq![(1int, n - 1)])
    } else if code == 1 {
        let half = (n - 1) / 2;
        if half == 0 {
            Err("Code 1: empty frame")
        } else if (n - 1) % 2 != 0 {
            Err("Code 1: odd payload length")
        } else {
            Ok(seq![(1int, half), (1 + half, half)])
        }
    } else if code == 2 {
        if n - 1 == 0 {
            Err("Code 2 packet has no data")
        } else {
            match read_size(input.subrange(1, n), 0) {
                None => Err("Opus frame length: truncated 2-byte"),
                Some((hs, fl)) => if hs + fl > n - 1 {
                    Err("Code 2: first frame size exceeds packet")
                } else {
                    Ok(seq![(1 + hs, fl), (1 + hs + fl, n - 1 - hs - fl)])
                },
            }
        }
    } else {
        spec_split_code3(input)
    }
}

/// The (offset, length) pairs of a vector, as integers.
pub open spec fn spans(v: Seq<(usize, usize)>) -> Seq<(int, int)> {
    Seq::new(v.len(), |i: int| (v[i].0 as int, v[i].1 as int))
}

/// A run of codes one longer: its widths and lengths gain the new code's.
proof fn lemma_codes_push(ps: Seq<(int, int)>, x: (int, int))
    ensures
        code_bytes(ps.push(x)) == code_bytes(ps) + x.0,
        code_lens(ps.push(x)) == code_lens(ps).push(x.1),
{
    assert(code_widths(ps.push(x)) =~= code_widths(ps).push(x.0));
    lemma_seq_sum_push(code_widths(ps), x.0);
    assert(code_lens(ps.push(x)) =~= code_lens(ps).push(x.1));
}

/// Reads the padding-length bytes of a code-3 packet (from byte 2):
/// the position after them and the padding total.
fn read_padding(input: &[u8]) -> (r: Option<(usize, usize)>)
    requires
        input@.len() * 255 <= usize::MAX,
    ensures
        match r {
            Some((ptr, pad)) => decode_padding(input@, 2, 0) == Some((ptr as int, pad as int)),
            None => decode_padding(input@, 2, 0) is None,
        },
{
    let mut ptr: usize = 2;
    let mut pad: usize = 0;
    while ptr < input.len()
        invariant
            2 <= ptr,
            pad <= 254 * (ptr - 2),
            input@.len() * 255 <= usize::MAX,
            decode_padding(input@, 2, 0) == decode_padding(input@, ptr as int, pad as int),
        decreases input.len() - ptr,
    {
        let p = input[ptr];
        ptr += 1;
        if p == 255 {
            pad += 254;
        } else {
            pad += p as usize;
            return Some((ptr, pad));
        }
    }
    None
}

/// Reads `n` frame-length codes from the start of `region`: the lengths
/// and the bytes the codes take.
fn read_frame_lens(region: &[u8], n: usize) -> (r: Result<(Vec<usize>, usize), &'static str>)
    ensures
        match read_lens(region@, n as nat) {
            Ok(ps) => r matches Ok((lens, hp)) && hp == code_bytes(ps) && hp <= region@.len() && ps.len() == n
                && lens@.len() == n && (
            forall|i: int| 0 <= i < n ==> #[trigger] lens@[i] == code_lens(ps)[i]),
            Err(e) => r == Err::<(Vec<usize>, usize), &'static str>(e),
        },
{
    let mut lens: Vec<usize> = Vec::new();
    let mut hp: usize = 0;
    let mut k: usize = 0;
    let ghost mut ps: Seq<(int, int)> = Seq::empty();
    while k < n
        invariant
            k <= n,
            read_lens(region@, k as nat) == Ok::<Seq<(int, int)>, &'static str>(ps),
            ps.len() == k,
            hp == code_bytes(ps),
            hp <= region@.len(),
            lens@.len() == k,
            forall|i: int| 0 <= i < k ==> #[trigger] lens@[i] == code_lens(ps)[i],
        decreases n - k,
    {
        let (l, nb) = match read_opus_frame_len(region, hp) {
            Ok(x) => x,
            Err(e) => {
                assert(read_lens(region@, (k + 1) as nat) == Err::<Seq<(int, int)>, &'static str>(e));
                proof {
                    if (k + 1) < n {
                        lemma_read_lens_err(region@, (k + 1) as nat, n as nat);
                    }
                }
                return Err(e);
            },
        };
        assert(read_size(region@, hp as int) == Some((nb as int, l as int)));
        assert(hp + nb <= region.len());
        proof {
            lemma_codes_push(ps, (nb as int, l as int));
            ps = ps.push((nb as int, l as int));
        }
        lens.push(l);
        hp += nb;
        k += 1;
    }
    Ok((lens, hp))
}

/// Once reading the codes fails, reading more fails with the same error.
proof fn lemma_read_lens_err(region: Seq<u8>, k: nat, n: nat)
    requires
        k <= n,
        read_lens(region, k) is Err,
    ensures
        read_lens(region, n) == read_lens(region, k),
    decreases n - k,
{
    if k < n {
        lemma_read_lens_err(region, k, (n - 1) as nat);
    }
}

/// The frames of varying size of a code-3 packet whose frame data lies in
/// `ptr..end`.
fn vbr_frames(input: &[u8], ptr: usize, end: usize, m: usize) -> (r: Result<Vec<(usize, usize)>, &'static str>)
    requires
        ptr <= end <= input@.len(),
        1 <= m <= 48,
    ensures
        match r {
            Ok(v) => code3_frames(input@, ptr as int, end as int, m as int, true) == Ok::<
                Seq<(int, int)>,
                &'static str,
            >(spans(v@)),
            Err(e) => code3_frames(input@, ptr as int, end as int, m as int, true) == Err::<
                Seq<(int, int)>,
                &'static str,
            >(e),
        },
{
    let region = &input[ptr..end];
    assert(region@ =~= input@.subrange(ptr as int, end as int));
    let rl = end - ptr;
    let (lens, hp) = match read_frame_lens(region, m - 1) {
        Ok(x) => x,
        Err(e) => {
            return Err(e);
        },
    };
    let ghost ps = read_lens(region@, (m - 1) as nat)->Ok_0;
    let ghost ls = code_lens(ps);
    assert(all_nonneg(ls)) by {
        assert forall|i: int| 0 <= i < ls.len() implies 0 <= #[trigger] ls[i] by {
            assert(ls[i] == lens@[i]);
        }
    }
    let ghost target = Seq::new(
        m as nat,
        |i: int|
            if i < m - 1 {
                (ptr + hp + seq_sum(ls.take(i)), ls[i])
            } else {
                (ptr + hp + seq_sum(ls), rl - hp - seq_sum(ls))
            },
    );
    let mut frames: Vec<(usize, usize)> = Vec::new();
    let mut fp = hp;
    let mut k: usize = 0;
    assert(ls.take(0) =~= Seq::<int>::empty());
    while k < m - 1
        invariant
            k <= m - 1,
            1 <= m <= 48,
            lens@.len() == m - 1,
            ls.len() == m - 1,
            forall|i: int| 0 <= i < m - 1 ==> #[trigger] lens@[i] == ls[i],
            all_nonneg(ls),
            read_lens(input@.subrange(ptr as int, end as int), (m - 1) as nat) == Ok::<
                Seq<(int, int)>,
                &'static str,
            >(ps),
            ls == code_lens(ps),
            hp == code_bytes(ps),
            fp == hp + seq_sum(ls.take(k as int)),
            fp <= rl,
            rl == end - ptr,
            ptr + rl <= input@.len(),
            frames@.len() == k,
            forall|i: int| 0 <= i < k ==> #[trigger] spans(frames@)[i] == target[i],
            target == Seq::new(
                m as nat,
                |i: int|
                    if i < m - 1 {
                        (ptr + hp + seq_sum(ls.take(i)), ls[i])
                    } else {
                        (ptr + hp + seq_sum(ls), rl - hp - seq_sum(ls))
                    },
            ),
        decreases m - 1 - k,
    {
        let l = lens[k];
        proof {
            lemma_seq_sum_take_step(ls, k as int);
        }
        if l > rl - fp {
            proof {
                lemma_seq_sum_prefix_le(ls, k + 1);
            }
            return Err("Code 3 VBR: frame length exceeds packet");
        }
        let ghost before = frames@;
        frames.push((ptr + fp, l));
        assert(spans(frames@) =~= spans(before).push(((ptr + fp) as int, l as int)));
        fp += l;
        k += 1;
    }
    assert(ls.take((m - 1) as int) =~= ls);
    if fp > rl {
        return Err("Code 3 VBR: no data for last frame");
    }
    let ghost before = frames@;
    frames.push((ptr + fp, rl - fp));
    assert(spans(frames@) =~= spans(before).push(((ptr + fp) as int, (rl - fp) as int)));
    assert(spans(frames@) =~= target);
    Ok(frames)
}

/// The `m` equal frames of a code-3 packet whose frame data lies in
/// `ptr..end`.
fn cbr_frames(ptr: usize, end: usize, m: usize) -> (r: Result<Vec<(usize, usize)>, &'static str>)
    requires
        ptr <= end,
        1 <= m <= 48,
    ensures
        forall|input: Seq<u8>| #![trigger code3_frames(input, ptr as int, end as int, m as int, false)]
            match r {
                Ok(v) => code3_frames(input, ptr as int, end as int, m as int, false) == Ok::<
                    Seq<(int, int)>,
                    &'static str,
                >(spans(v@)),
                Err(e) => code3_frames(input, ptr as int, end as int, m as int, false) == Err::<
                    Seq<(int, int)>,
                    &'static str,
                >(e),
            },
{
    let rl = end - ptr;
    if rl % m != 0 {
        return Err("Code 3 CBR: frame data not divisible by frame count");
    }
    let fl = rl / m;
    assert(fl * m == rl) by (nonlinear_arith)
        requires
            fl == rl / m,
            rl % m == 0,
            m > 0,
    ;
    let mut frames: Vec<(usize, usize)> = Vec::new();
    let mut pos = ptr;
    let mut i: usize = 0;
    while i < m
        invariant
            i <= m,
            1 <= m <= 48,
            fl == rl / m,
            fl * m == rl,
            rl % m == 0,
            rl == end - ptr,
            ptr <= end,
            pos == ptr + i * fl,
            frames@.len() == i,
            forall|j: int| 0 <= j < i ==> #[trigger] spans(frames@)[j] == (ptr + j * fl, fl as int),
        decreases m - i,
    {
        assert(pos + fl <= end) by (nonlinear_arith)
            requires
                pos == ptr + i * fl,
                i < m,
                fl * m == rl,
                rl == end - ptr,
        ;
        let ghost before = frames@;
        frames.push((pos, fl));
        assert(spans(frames@) =~= spans(before).push((pos as int, fl as int)));
        assert((i + 1) * fl == i * fl + fl) by (nonlinear_arith);
        pos += fl;
        i += 1;
    }
    assert forall|input: Seq<u8>| #![trigger code3_frames(input, ptr as int, end as int, m as int, false)]
        code3_frames(input, ptr as int, end as int, m as int, false) == Ok::<
            Seq<(int, int)>,
            &'static str,
        >(spans(frames@)) by {
        assert(spans(frames@) =~= Seq::new(
            m as nat,
            |j: int| (ptr + j * ((rl as int) / (m as int)), (rl as int) / (m as int)),
        ));
    }
    Ok(frames)
}

/// The frames of a code-3 packet.
fn split_code3(input: &[u8]) -> (r: Result<Vec<(usize, usize)>, &'static str>)
    requires
        1 <= input@.len(),
        input@.len() * 255 <= usize::MAX,
    ensures
        match r {
            Ok(v) => spec_split_code3(input@) == Ok::<Seq<(int, int)>, &'static str>(spans(v@)),
            Err(e) => spec_split_code3(input@) == Err::<Seq<(int, int)>, &'static str>(e),
        },
{
    if input.len() < 2 {
        return Err("Code 3 packet too short");
    }
    let count_byte = input[1];
    let m = (count_byte & 0x3F) as usize;
    assert(count_byte & 0x3F == count_byte % 64) by (bit_vector);
    if m < 1 || m > 48 {
        return Err("Code 3: invalid frame count");
    }
    let vbr = (count_byte & 0x80) != 0;
    let padding = (count_byte & 0x40) != 0;
    assert((count_byte & 0x80 != 0) == (count_byte >= 128)) by (bit_vector);
    assert((count_byte & 0x40 != 0) == ((count_byte / 64) % 2 == 1)) by (bit_vector);
    let mut ptr: usize = 2;
    let mut pad_len: usize = 0;
    if padding {
        match read_padding(input) {
            Some((p, l)) => {
                ptr = p;
                pad_len = l;
            },
            None => {
                return Err("Code 3: padding overflow");
            },
        }
    }
    if pad_len > input.len() {
        return Err("Code 3: padding exceeds packet");
    }
    let end = input.len() - pad_len;
    if ptr > end {
        return Err("Code 3: padding exceeds packet");
    }
    if vbr {
        vbr_frames(input, ptr, end, m)
    } else {
        cbr_frames(ptr, end, m)
    }
}

/// Splits a packet into the frames the decoder decodes: `(offset, length)`
/// of each frame's bytes.
pub fn split_frames(input: &[u8]) -> (r: Result<Vec<(usize, usize)>, &'static str>)
    requires
        1 <= input@.len(),
        input@.len() * 255 <= usize::MAX,
    ensures
        match r {
            Ok(v) => spec_split_frames(input@) == Ok::<Seq<(int, int)>, &'static str>(spans(v@)),
            Err(e) => spec_split_frames(input@) == Err::<Seq<(int, int)>, &'static str>(e),
        },
{
    let toc = input[0];
    let code = toc & 0x03;
    assert(toc & 0x03 == toc % 4) by (bit_vector);
    if code == 0 {
        let v = vec![(1usize, input.len() - 1)];
        assert(spans(v@) =~= seq![(1int, input@.len() - 1)]);
        Ok(v)
    } else if code == 1 {
        let half = (input.len() - 1) / 2;
        if half == 0 {
            return Err("Code 1: empty frame");
        }
        if (input.len() - 1) % 2 != 0 {
            return Err("Code 1: odd payload length");
        }
        let v = vec![(1usize, half), (1 + half, half)];
        assert(spans(v@) =~= seq![(1int, half as int), (1 + half, half as int)]);
        Ok(v)
    } else if code == 2 {
        let data = &input[1..input.len()];
        assert(data@ =~= input@.subrange(1, input@.len() as int));
        if data.len() == 0 {
            return Err("Code 2 packet has no data");
        }
        let (first_len, header_size) = match read_opus_frame_len(data, 0) {
            Ok(x) => x,
            Err(e) => {
                return Err(e);
            },
        };
        if first_len > data.len() - header_size {
            return Err("Code 2: first frame size exceeds packet");
        }
        let last = data.len() - header_size - first_len;
        let v = vec![(1 + header_size, first_len), (1 + header_size + first_len, last)];
        assert(spans(v@) =~= seq![
            (1 + header_size as int, first_len as int),
            (1 + header_size + first_len as int, input@.len() - 1 - header_size - first_len),
        ]);
        Ok(v)
    } else {
        split_code3(input)
    }
}

/// A length code read inside a window of the packet reads as in the packet.
proof fn lemma_read_size_window(data: Seq<u8>, a: int, b: int, q: int)
    requires
        0 <= a <= b <= data.len(),
        0 <= q,
        read_size(data, a + q) matches Some((w, _)) && a + q + w <= b,
    ensures
        read_size(data.subrange(a, b), q) == read_size(data, a + q),
{
}

/// Length codes read inside a window of the packet read as in the packet.
proof fn lemma_read_lens_window(data: Seq<u8>, a: int, b: int, n: nat)
    requires
        0 <= a <= b <= data.len(),
        read_sizes(data, a, n) matches Some(ps) && a + code_bytes(ps) <= b,
    ensures
        read_lens(data.subrange(a, b), n) == Ok::<Seq<(int, int)>, &'static str>(
            read_sizes(data, a, n).unwrap(),
        ),
        code_bytes(read_sizes(data, a, n).unwrap()) >= 0,
    decreases n,
{
    if n == 0 {
        assert(code_widths(Seq::<(int, int)>::empty()) =~= Seq::<int>::empty());
    } else {
        let ps = read_sizes(data, a, n).unwrap();
        let prev = read_sizes(data, a, (n - 1) as nat).unwrap();
        let x = read_size(data, a + code_bytes(prev)).unwrap();
        assert(ps == prev.push(x));
        lemma_codes_push(prev, x);
        lemma_read_lens_window(data, a, b, (n - 1) as nat);
        lemma_read_size_window(data, a, b, code_bytes(prev));
    }
}

/// Skipping the padding-length bytes as the packet model does and reading
/// them as the decoder does stop at the same byte; the decoder's padding
/// total is what the model takes off the bytes left.
proof fn lemma_padding_agrees(data: Seq<u8>, pos: int, len: int, pad: int)
    requires
        0 <= pos,
        len <= data.len() - pos,
        skip_padding(data, pos, len) is Some,
    ensures
        ({
            let (p, l2) = skip_padding(data, pos, len).unwrap();
            decode_padding(data, pos, pad) == Some((p, pad + len - (p - pos) - l2))
        }),
    decreases (if len > 0 {
        len
    } else {
        0
    }),
{
    if data[pos] == 255 {
        lemma_padding_agrees(data, pos + 1, len - 255, pad + 254);
    }
}

/// The layout a parsed packet's frames are at, as (offset, length) pairs.
pub open spec fn layout_spans(hdr: int, sizes: Seq<int>) -> Seq<(int, int)> {
    Seq::new(sizes.len(), |i: int| (frame_offset(hdr, sizes, i), sizes[i]))
}

/// A code-3 packet the packet model parses splits into the frames of its
/// layout.
#[verifier::spinoff_prover]
#[verifier::rlimit(40)]
proof fn lemma_split_code3_matches(input: Seq<u8>)
    requires
        input.len() >= 1,
        input[0] % 4 == 3,
        parse_model(input, false) is Some,
    ensures
        ({
            let (hdr, sizes) = parse_model(input, false).unwrap();
            spec_split_code3(input) == Ok::<Seq<(int, int)>, &'static str>(layout_spans(hdr, sizes))
        }),
{
    let n = input.len() as int;
    let (hdr, sizes) = parse_model(input, false).unwrap();
    let cb = input[1];
    let count = (cb % 64) as int;
    lemma_samples_per_frame_rates(input[0]);
    let (pos, l2) = if (cb / 64) % 2 == 1 {
        skip_padding(input, 2, n - 2).unwrap()
    } else {
        (2int, n - 2)
    };
    if (cb / 64) % 2 == 1 {
        lemma_padding_agrees(input, 2, n - 2, 0);
    }
    assert(spec_samples_per_frame(input[0], 48000) * count <= 5760);
    assert(count <= 48) by (nonlinear_arith)
        requires
            spec_samples_per_frame(input[0], 48000) * count <= 5760,
            spec_samples_per_frame(input[0], 48000) >= 120,
            count >= 0,
    ;
    assert(0 <= l2 && 2 <= pos && pos + l2 <= n) by {
        if (cb / 64) % 2 == 1 {
            lemma_skip_padding_end(input, 2, n - 2);
        }
    }
    let end = pos + l2;
    if cb >= 128 {
        let ps = read_sizes(input, pos, (count - 1) as nat).unwrap();
        lemma_read_sizes_bounds(input, pos, (count - 1) as nat);
        let lens = code_lens(ps);
        let cbytes = code_bytes(ps);
        let last = l2 - cbytes - seq_sum(lens);
        lemma_seq_sum_prefix_le(lens, 0);
        assert(lens.take(0) =~= Seq::<int>::empty());
        lemma_read_lens_window(input, pos, end, (count - 1) as nat);
        assert(hdr == pos + cbytes);
        assert(sizes == lens.push(last));
        let got = code3_frames(input, pos, end, count, true).unwrap();
        assert(got.len() == sizes.len());
        assert forall|i: int| 0 <= i < sizes.len() implies #[trigger] got[i] == layout_spans(hdr, sizes)[i] by {
            if i < count - 1 {
                assert(sizes.take(i) =~= lens.take(i));
            } else {
                assert(sizes.take(i) =~= lens);
            }
        }
        assert(got =~= layout_spans(hdr, sizes));
    } else {
        let last = l2 / count;
        assert(l2 % count == 0) by (nonlinear_arith)
            requires
                last * count == l2,
                last == l2 / count,
                count > 0,
        ;
        assert(sizes =~= Seq::new(count as nat, |i: int| last));
        let got = code3_frames(input, pos, end, count, false).unwrap();
        assert forall|i: int| 0 <= i < sizes.len() implies #[trigger] got[i] == layout_spans(hdr, sizes)[i] by {
            assert(sizes.take(i) =~= Seq::new(i as nat, |j: int| last));
            lemma_seq_sum_const(i as nat, last);
        }
        assert(got =~= layout_spans(hdr, sizes));
    }
}

/// Where the model's padding skip ends: inside the packet, with no more
/// bytes left than follow that point.
proof fn lemma_skip_padding_end(data: Seq<u8>, pos: int, len: int)
    requires
        0 <= pos,
        len <= data.len() - pos,
        skip_padding(data, pos, len) is Some,
    ensures
        ({
            let (p, l2) = skip_padding(data, pos, len).unwrap();
            pos < p && l2 <= data.len() - p
        }),
    decreases (if len > 0 {
        len
    } else {
        0
    }),
{
    if data[pos] == 255 {
        lemma_skip_padding_end(data, pos + 1, len - 255);
    }
}

/// The decoder reads the frames the packet model finds: every packet that
/// parses splits into the frames of its layout, but for a code-1 packet
/// without payload bytes, whose two empty frames the decoder refuses.
pub proof fn lemma_split_matches_parse(input: Seq<u8>)
    requires
        parse_model(input, false) is Some,
        !(input[0] % 4 == 1 && input.len() == 1),
    ensures
        ({
            let (hdr, sizes) = parse_model(input, false).unwrap();
            spec_split_frames(input) == Ok::<Seq<(int, int)>, &'static str>(layout_spans(hdr, sizes))
        }),
{
    let n = input.len() as int;
    let (hdr, sizes) = parse_model(input, false).unwrap();
    let code = input[0] % 4;
    assert(sizes.take(0) =~= Seq::<int>::empty());
    assert(seq_sum(sizes.take(0)) == 0);
    if sizes.len() > 1 {
        lemma_seq_sum_take_step(sizes, 0);
    }
    if code == 0 {
        assert(layout_spans(hdr, sizes) =~= seq![(1int, n - 1)]);
    } else if code == 1 {
        let half = (n - 1) / 2;
        assert(sizes.take(1) =~= seq![half]);
        assert(layout_spans(hdr, sizes) =~= seq![(1int, half), (1 + half, n - 1 - half)]);
    } else if code == 2 {
        let (b, sz) = read_size(input, 1).unwrap();
        lemma_read_size_window(input, 1, n, 0);
        assert(sizes.take(1) =~= seq![sz]);
        assert(layout_spans(hdr, sizes) =~= seq![(1 + b, sz), (1 + b + sz, n - 1 - b - sz)]);
    } else {
        lemma_split_code3_matches(input);
    }
}

/// The decoder finds the frames a repacketizer writes: a packet written
/// from frames a repacketizer may hold, padded or not, splits into exactly
/// those frames, but for two empty frames written unpadded (a code-1 packet
/// without payload bytes).
pub proof fn lemma_split_written(toc: u8, fs: Seq<Seq<u8>>, pad_to: Option<usize>)
    requires
        fs.len() >= 1,
        frames_hold(toc, fs),
        !(pad_to is None && fs.len() == 2 && fs[0].len() == 0 && fs[1].len() == 0),
    ensures
        ({
            let out = spec_out(toc, fs, pad_to, false);
            &&& spec_split_frames(out) is Ok
            &&& spec_split_frames(out)->Ok_0.len() == fs.len()
            &&& forall|i: int|
                0 <= i < fs.len() ==> {
                    let (o, l) = #[trigger] spec_split_frames(out)->Ok_0[i];
                    out.subrange(o, o + l) == fs[i]
                }
        }),
{
    let out = spec_out(toc, fs, pad_to, false);
    lemma_out_parse_roundtrip(toc, fs, pad_to, false, Seq::empty());
    assert(out + Seq::<u8>::empty() =~= out);
    let (hdr, sizes) = parse_model(out, false).unwrap();
    let t = toc / 4 * 4;
    assert(!(out[0] % 4 == 1 && out.len() == 1)) by {
        if !(fs.len() > 2 || pad_to is Some) && fs.len() == 2 && fs[0].len() == fs[1].len() {
            assert(out.len() == 1 + fs[0].len() + fs[1].len());
        }
    }
    lemma_split_matches_parse(out);
    assert forall|i: int| 0 <= i < fs.len() implies {
        let (o, l) = #[trigger] spec_split_frames(out)->Ok_0[i];
        out.subrange(o, o + l) == fs[i]
    } by {
        assert(frames_of(out, hdr, sizes)[i] == fs[i]);
    }
}

/// The rate the SILK decoder runs at for a packet: 16 kHz for hybrid; for
/// SILK 8 kHz at narrowband, 12 kHz at mediumband, 16 kHz above.
pub open spec fn spec_silk_internal_rate(mode: OpusMode, bandwidth: Bandwidth) -> int {
    if mode == OpusMode::Hybrid {
        16000
    } else if bandwidth == Bandwidth::Narrowband {
        8000
    } else if bandwidth == Bandwidth::Mediumband {
        12000
    } else {
        16000
    }
}

/// The rate the SILK decoder runs at for a SILK or hybrid packet.
pub fn silk_internal_rate(mode: OpusMode, bandwidth: Bandwidth) -> (r: i32)
    ensures
        r == spec_silk_internal_rate(mode, bandwidth),
{
    match mode {
        OpusMode::Hybrid => 16000,
        _ => match bandwidth {
            Bandwidth::Narrowband => 8000,
            Bandwidth::Mediumband => 12000,
            _ => 16000,
        },
    }
}

/// The 20 ms SILK frames an Opus frame of `frame_ms` milliseconds carries:
/// two for 40 ms, three for 60 ms, otherwise one.
pub fn silk_frames_per_frame(frame_ms: i32) -> (r: usize)
    ensures
        r == (if frame_ms == 40 {
            2int
        } else if frame_ms == 60 {
            3
        } else {
            1
        }),
{
    if frame_ms == 40 {
        2
    } else if frame_ms == 60 {
        3
    } else {
        1
    }
}

} // verus!
