//! Split Opus packets into frames and recombine, re-frame or pad them
//! without re-encoding. All frames held by a repacketizer share one TOC
//! configuration (mode, bandwidth, frame size); only the code (0..=3) and
//! the framing change.

use vstd::prelude::*;
use crate::toc::spec_channels_from_toc;
use crate::framing::{
    all_nonneg, all_same_len, code3_framing, code3_size, code_bytes, code_lens, codes_well_formed,
    concat_codes, concat_frames, frame_lens, frame_offset, frames_fit, frames_hold, frames_of,
    header_framing, lemma_code3_size_of_parsed, lemma_code_lens_push, lemma_code_prefix_le,
    lemma_codes_well_formed_push, lemma_concat_frames_small, lemma_frames_hold_subrange,
    lemma_out_frames, lemma_out_parse_roundtrip, lemma_packet_frames_facts, lemma_padded_len,
    lemma_parse_model_facts, lemma_read_size_bounds, lemma_read_size_suffix,
    lemma_read_sizes_bounds, lemma_read_sizes_prefix, lemma_samples_per_frame_config,
    lemma_samples_per_frame_rates, lemma_seq_sum_nonneg, lemma_seq_sum_prefix_le,
    lemma_seq_sum_push, lemma_seq_sum_take_step, packet_frames, padding_code, parse_model,
    read_size, read_sizes, reads_back, seq_sum, size_code, size_code_len, skip_padding,
    spec_nb_frames, spec_out, spec_samples_per_frame, lemma_code3_size_parts,
    lemma_parse_header_room, lemma_unpadded_layout_end, code_len_seq,
};

verus! {

/// The values of a vector of `i32`, as integers.
pub open spec fn ints(v: Seq<i32>) -> Seq<int> {
    Seq::new(v.len(), |i: int| v[i] as int)
}

/// The samples per frame a TOC byte declares at sampling rate `fs`.
pub fn samples_per_frame(toc: u8, fs: i32) -> (r: i32)
    requires
        (toc < 128 && (toc / 32) % 4 != 3 && (toc / 8) % 4 == 3) ==> i32::MIN <= fs * 60 <= i32::MAX,
    ensures
        r == spec_samples_per_frame(toc, fs),
{
    reveal(spec_samples_per_frame);
    let a = (toc / 8) % 4;
    let m: i32 = if a == 0 {
        1
    } else if a == 1 {
        2
    } else if a == 2 {
        4
    } else {
        8
    };
    if toc >= 128 {
        fs.wrapping_mul(m) / 400
    } else if (toc / 32) % 4 == 3 {
        if (toc / 8) % 2 == 1 {
            fs / 50
        } else {
            fs / 100
        }
    } else if a == 3 {
        fs * 60 / 1000
    } else {
        fs.wrapping_mul(m) / 100
    }
}

/// The number of frames a packet declares.
pub fn nb_frames(packet: &[u8]) -> (r: Result<i32, &'static str>)
    ensures
        match r {
            Ok(n) => spec_nb_frames(packet@) == Some(n as int),
            Err(e) => spec_nb_frames(packet@) is None && (packet@.len() == 0 ==> e == "bad arg")
                && (packet@.len() > 0 ==> e == "invalid packet"),
        },
{
    if packet.len() == 0 {
        return Err("bad arg");
    }
    let code = packet[0] % 4;
    if code == 0 {
        Ok(1)
    } else if code == 3 {
        if packet.len() < 2 {
            Err("invalid packet")
        } else {
            Ok((packet[1] % 64) as i32)
        }
    } else {
        Ok(2)
    }
}

/// Reads a frame-length code: `(bytes consumed, size)`, or `(-1, -1)` when
/// the data ends inside the code.
pub fn parse_size(data: &[u8]) -> (r: (i32, i32))
    ensures
        match read_size(data@, 0) {
            None => r == (-1i32, -1i32),
            Some((b, s)) => r.0 == b && r.1 == s,
        },
{
    if data.len() == 0 {
        (-1, -1)
    } else if data[0] < 252 {
        (1, data[0] as i32)
    } else if data.len() < 2 {
        (-1, -1)
    } else {
        (2, data[1] as i32 * 4 + data[0] as i32)
    }
}

/// Appends the length code of a `size`-byte frame to `out`.
pub fn encode_size(size: i32, out: &mut Vec<u8>)
    ensures
        final(out)@ == old(out)@ + size_code(size as int),
{
    if size < 252 {
        out.push(size as u8);
    } else {
        let b0 = 252 + size % 4;
        out.push(b0 as u8);
        out.push(((size - b0) / 4) as u8);
    }
    assert(final(out)@ =~= old(out)@ + size_code(size as int));
}

/// The header of a packet up to (not including) the self-delimiting length.
fn parse_framing(data: &[u8], self_delimited: bool) -> (r: Result<
    (usize, i32, bool, i32, Vec<i32>, usize),
    &'static str,
>)
    requires
        1 <= data@.len() <= i32::MAX,
    ensures
        match r {
            Ok((pos, len, cbr, last, sizes, count)) => {
                &&& header_framing(data@, self_delimited) == Some(
                    (pos as int, len as int, cbr, last as int, ints(sizes@), count as int),
                )
                &&& 1 <= pos <= data@.len()
                &&& 0 <= len <= data@.len() - pos
                &&& 0 <= last <= len
                &&& 1 <= count <= 63
                &&& sizes@.len() < count
                &&& forall|i: int| 0 <= i < sizes@.len() ==> 0 <= #[trigger] sizes@[i] <= data@.len()
            },
            Err(e) => header_framing(data@, self_delimited) is None && e == "invalid packet",
        },
{
    let toc = data[0];
    let framesize = samples_per_frame(toc, 48000);
    proof {
        lemma_samples_per_frame_rates(toc);
    }
    let mut pos: usize = 1;
    let mut len: i32 = data.len() as i32 - 1;
    let code = toc % 4;
    if code == 0 {
        let sizes: Vec<i32> = Vec::new();
        assert(ints(sizes@) =~= Seq::<int>::empty());
        Ok((pos, len, false, len, sizes, 1))
    } else if code == 1 {
        if !self_delimited {
            if len % 2 != 0 {
                return Err("invalid packet");
            }
            let last = len / 2;
            let mut sizes: Vec<i32> = Vec::new();
            sizes.push(last);
            assert(ints(sizes@) =~= seq![len / 2]);
            Ok((pos, len, true, last, sizes, 2))
        } else {
            let sizes: Vec<i32> = Vec::new();
            assert(ints(sizes@) =~= Seq::<int>::empty());
            Ok((pos, len, true, len, sizes, 2))
        }
    } else if code == 2 {
        let (bytes, sz) = parse_size(&data[pos..data.len()]);
        proof {
            lemma_read_size_suffix(data@, 1);
            if read_size(data@, 1) is Some {
                lemma_read_size_bounds(data@, 1);
            }
        }
        if bytes < 0 {
            return Err("invalid packet");
        }
        len = len - bytes;
        if sz < 0 || sz > len {
            return Err("invalid packet");
        }
        pos = pos + bytes as usize;
        let mut sizes: Vec<i32> = Vec::new();
        sizes.push(sz);
        assert(ints(sizes@) =~= seq![sz as int]);
        Ok((pos, len, false, len - sz, sizes, 2))
    } else {
        if len < 1 {
            return Err("invalid packet");
        }
        let ch = data[pos];
        pos = pos + 1;
        len = len - 1;
        let count: usize = (ch % 64) as usize;
        assert(0 <= framesize * count <= 2880 * 63) by (nonlinear_arith)
            requires
                0 <= framesize <= 2880,
                0 <= count <= 63,
        ;
        if count == 0 || framesize * count as i32 > 5760 {
            return Err("invalid packet");
        }
        let ghost len1 = len as int;
        assert(header_framing(data@, self_delimited) == code3_framing(data@, self_delimited, data@.len() - 1));
        if (ch / 64) % 2 == 1 {
            // padding: each 255 adds 254 bytes and continues
            let ghost target = skip_padding(data@, 2, len1);
            loop
                invariant_except_break
                    2 <= pos <= data@.len(),
                    len <= data@.len() - pos,
                    skip_padding(data@, pos as int, len as int) == target,
                    target == skip_padding(data@, 2, len1),
                    header_framing(data@, self_delimited) == code3_framing(
                        data@,
                        self_delimited,
                        data@.len() - 1,
                    ),
                    target is None ==> code3_framing(data@, self_delimited, data@.len() - 1) is None,
                ensures
                    target == Some((pos as int, len as int)),
                    2 <= pos <= data@.len(),
                    len <= data@.len() - pos,
                decreases data@.len() - pos,
            {
                if len <= 0 {
                    return Err("invalid packet");
                }
                let p = data[pos];
                pos = pos + 1;
                len = len - 1;
                let tmp: i32 = if p == 255 {
                    254
                } else {
                    p as i32
                };
                len = len - tmp;
                if p != 255 {
                    break ;
                }
            }
        }
        if len < 0 {
            return Err("invalid packet");
        }
        let cbr = ch < 128;
        if !cbr {
            let ghost pos0 = pos as int;
            let ghost len0 = len as int;
            let mut last: i32 = len;
            let mut sizes: Vec<i32> = Vec::new();
            let ghost mut ps: Seq<(int, int)> = Seq::empty();
            let mut k: usize = 0;
            while k < count - 1
                invariant
                    1 <= count <= 63,
                    0 <= k <= count - 1,
                    2 <= pos0 <= data@.len(),
                    2 <= pos,
                    0 <= len0 <= data@.len() - pos0,
                    read_sizes(data@, pos0, k as nat) == Some(ps),
                    ps.len() == k,
                    codes_well_formed(ps),
                    pos == pos0 + code_bytes(ps),
                    pos <= data@.len(),
                    len == len0 - code_bytes(ps),
                    last == len0 - code_bytes(ps) - seq_sum(code_lens(ps)),
                    ints(sizes@) == code_lens(ps),
                    sizes@.len() == k,
                    forall|i: int| 0 <= i < sizes@.len() ==> 0 <= #[trigger] sizes@[i] <= data@.len(),
                    0 <= len,
                    last <= len,
                    last >= i32::MIN + 1277 * (63 - k),
                    header_framing(data@, self_delimited) == code3_framing(
                        data@,
                        self_delimited,
                        data@.len() - 1,
                    ),
                    code3_framing(data@, self_delimited, data@.len() - 1) == (match read_sizes(
                        data@,
                        pos0,
                        (count - 1) as nat,
                    ) {
                        None => None,
                        Some(ps) => {
                            let last = len0 - code_bytes(ps) - seq_sum(code_lens(ps));
                            if last < 0 {
                                None
                            } else {
                                Some(
                                    (
                                        pos0 + code_bytes(ps),
                                        len0 - code_bytes(ps),
                                        false,
                                        last,
                                        code_lens(ps),
                                        count as int,
                                    ),
                                )
                            }
                        },
                    }),
                decreases count - 1 - k,
            {
                let (bytes, sz) = parse_size(&data[pos..data.len()]);
                proof {
                    lemma_read_size_suffix(data@, pos as int);
                }
                if bytes < 0 {
                    proof {
                        assert(read_sizes(data@, pos0, (k + 1) as nat) is None);
                        if read_sizes(data@, pos0, (count - 1) as nat) is Some {
                            lemma_read_sizes_prefix(data@, pos0, (count - 1) as nat, (k + 1) as nat);
                        }
                    }
                    return Err("invalid packet");
                }
                proof {
                    lemma_read_size_bounds(data@, pos as int);
                }
                let ghost x = (bytes as int, sz as int);
                len = len - bytes;
                if sz < 0 || sz > len {
                    proof {
                        let nps = ps.push(x);
                        lemma_code_lens_push(ps, x);
                        assert(read_sizes(data@, pos0, (k + 1) as nat) == Some(nps));
                        if read_sizes(data@, pos0, (count - 1) as nat) is Some {
                            let full = read_sizes(data@, pos0, (count - 1) as nat).unwrap();
                            lemma_read_sizes_prefix(data@, pos0, (count - 1) as nat, (k + 1) as nat);
                            lemma_read_sizes_bounds(data@, pos0, (count - 1) as nat);
                            assert(full.take((k + 1) as int) == nps);
                            lemma_code_prefix_le(full, (k + 1) as int);
                            assert(code_lens(nps)[k as int] == sz);
                            lemma_seq_sum_take_step(code_lens(nps), k as int);
                            assert(code_lens(nps).take(k + 1) =~= code_lens(nps));
                            lemma_seq_sum_nonneg(code_lens(nps).take(k as int));
                        }
                    }
                    return Err("invalid packet");
                }
                pos = pos + bytes as usize;
                sizes.push(sz);
                last = last - (bytes + sz);
                proof {
                    lemma_code_lens_push(ps, x);
                    lemma_seq_sum_push(code_lens(ps), sz as int);
                    lemma_codes_well_formed_push(ps, x);
                    ps = ps.push(x);
                    assert(ints(sizes@) =~= code_lens(ps));
                }
                k = k + 1;
            }
            if last < 0 {
                return Err("invalid packet");
            }
            Ok((pos, len, false, last, sizes, count))
        } else if !self_delimited {
            let last = len / count as i32;
            assert(0 <= last * count <= len) by (nonlinear_arith)
                requires
                    0 <= len,
                    1 <= count,
                    last == (len as int) / (count as int),
            ;
            if last * count as i32 != len {
                return Err("invalid packet");
            }
            let mut sizes: Vec<i32> = Vec::new();
            let mut k: usize = 0;
            while k < count - 1
                invariant
                    1 <= count <= 63,
                    k <= count - 1,
                    sizes@.len() == k,
                    forall|i: int| 0 <= i < k ==> sizes@[i] == last,
                decreases count - 1 - k,
            {
                sizes.push(last);
                k = k + 1;
            }
            assert(ints(sizes@) =~= Seq::new((count - 1) as nat, |i: int| last as int));
            Ok((pos, len, true, last, sizes, count))
        } else {
            let sizes: Vec<i32> = Vec::new();
            assert(ints(sizes@) =~= Seq::<int>::empty());
            Ok((pos, len, true, len, sizes, count))
        }
    }
}

/// Splits `data` into its frames: `(toc, (offset, length) of each frame,
/// offset just past the packet)`. `self_delimited` parses the extra length
/// code multistream packets carry, after which further bytes may follow.
pub fn parse_packet(data: &[u8], self_delimited: bool) -> (r: Result<
    (u8, Vec<(usize, usize)>, usize),
    &'static str,
>)
    requires
        data@.len() <= i32::MAX,
    ensures
        match r {
            Ok((toc, frames, end)) => {
                &&& parse_model(data@, self_delimited) matches Some((hdr, sizes))
                &&& toc == data@[0]
                &&& frames@.len() == sizes.len()
                &&& forall|i: int|
                    0 <= i < sizes.len() ==> (#[trigger] frames@[i]).0 == frame_offset(hdr, sizes, i)
                        && frames@[i].1 == sizes[i] && frames@[i].0 + frames@[i].1 <= data@.len()
                &&& end == hdr + seq_sum(sizes)
            },
            Err(e) => parse_model(data@, self_delimited) is None && e == "invalid packet",
        },
{
    if data.len() == 0 {
        return Err("invalid packet");
    }
    let (mut pos, mut len, cbr, last, mut sizes, count) = match parse_framing(data, self_delimited) {
        Ok(f) => f,
        Err(e) => {
            return Err(e);
        },
    };
    let ghost hdr_pos = pos as int;
    let ghost sizes0 = ints(sizes@);
    let ghost mut gsizes: Seq<int> = Seq::empty();
    if self_delimited {
        let (bytes, sz) = parse_size(&data[pos..data.len()]);
        proof {
            lemma_read_size_suffix(data@, pos as int);
            if read_size(data@, pos as int) is Some {
                lemma_read_size_bounds(data@, pos as int);
            }
        }
        if bytes < 0 {
            return Err("invalid packet");
        }
        len = len - bytes;
        if sz < 0 || sz > len {
            return Err("invalid packet");
        }
        pos = pos + bytes as usize;
        if cbr {
            assert(0 <= sz * count <= 1275 * 63) by (nonlinear_arith)
                requires
                    0 <= sz <= 1275,
                    1 <= count <= 63,
            ;
            if sz * count as i32 > len {
                return Err("invalid packet");
            }
            let mut v: Vec<i32> = Vec::new();
            let mut k: usize = 0;
            while k < count
                invariant
                    k <= count,
                    v@.len() == k,
                    forall|i: int| 0 <= i < k ==> v@[i] == sz,
                decreases count - k,
            {
                v.push(sz);
                k = k + 1;
            }
            sizes = v;
            proof {
                gsizes = Seq::new(count as nat, |i: int| sz as int);
                assert(ints(sizes@) =~= gsizes);
            }
        } else {
            if bytes + sz > last {
                return Err("invalid packet");
            }
            sizes.push(sz);
            proof {
                gsizes = sizes0.push(sz as int);
                assert(ints(sizes@) =~= gsizes);
            }
        }
    } else {
        if last > 1275 {
            return Err("invalid packet");
        }
        sizes.push(last);
        proof {
            gsizes = sizes0.push(last as int);
            assert(ints(sizes@) =~= gsizes);
        }
    }
    assert(parse_model(data@, self_delimited) == frames_fit(data@, pos as int, gsizes));
    assert(all_nonneg(gsizes));
    // Frame byte ranges start at `pos`.
    let mut frames: Vec<(usize, usize)> = Vec::with_capacity(count);
    let mut off = pos;
    let mut k: usize = 0;
    while k < sizes.len()
        invariant
            ints(sizes@) == gsizes,
            data@.len() <= i32::MAX,
            all_nonneg(gsizes),
            forall|i: int| 0 <= i < gsizes.len() ==> #[trigger] gsizes[i] <= data@.len(),
            k <= sizes@.len(),
            pos <= off <= data@.len(),
            off == pos + seq_sum(gsizes.take(k as int)),
            frames@.len() == k,
            forall|i: int|
                0 <= i < k ==> (#[trigger] frames@[i]).0 == frame_offset(pos as int, gsizes, i)
                    && frames@[i].1 == gsizes[i] && frames@[i].0 + frames@[i].1 <= data@.len(),
            parse_model(data@, self_delimited) == frames_fit(data@, pos as int, gsizes),
        decreases sizes@.len() - k,
    {
        assert(gsizes[k as int] == sizes@[k as int]);
        let s = sizes[k] as usize;
        proof {
            lemma_seq_sum_take_step(gsizes, k as int);
        }
        if off + s > data.len() {
            proof {
                lemma_seq_sum_prefix_le(gsizes, k + 1);
            }
            return Err("invalid packet");
        }
        frames.push((off, s));
        off = off + s;
        k = k + 1;
    }
    assert(gsizes.take(gsizes.len() as int) =~= gsizes);
    Ok((data[0], frames, off))
}

/// Appends the bytes of `src` to `out`.
pub(crate) fn append_bytes(out: &mut Vec<u8>, src: &[u8])
    ensures
        final(out)@ == old(out)@ + src@,
{
    let ghost start = out@;
    let mut i: usize = 0;
    while i < src.len()
        invariant
            i <= src@.len(),
            out@ == start + src@.take(i as int),
        decreases src@.len() - i,
    {
        out.push(src[i]);
        i = i + 1;
        assert(out@ =~= start + src@.take(i as int));
    }
    assert(src@.take(src@.len() as int) =~= src@);
}

/// Appends the padding-length bytes declaring `pad_amount` bytes of padding.
pub(crate) fn write_padding(out: &mut Vec<u8>, pad_amount: usize)
    requires
        pad_amount > 0,
    ensures
        final(out)@ == old(out)@ + padding_code(pad_amount as int),
{
    let ghost start = out@;
    let nb_255s = (pad_amount - 1) / 255;
    let mut k: usize = 0;
    while k < nb_255s
        invariant
            k <= nb_255s,
            out@ == start + Seq::new(k as nat, |j: int| 255u8),
        decreases nb_255s - k,
    {
        out.push(255);
        k = k + 1;
        assert(out@ =~= start + Seq::new(k as nat, |j: int| 255u8));
    }
    out.push((pad_amount - 255 * nb_255s - 1) as u8);
    assert(out@ =~= start + padding_code(pad_amount as int));
}

/// The repacketizer after `cat` takes a packet: the configuration of the
/// first packet taken in, and the packet's frames after those held.
pub open spec fn cat_result(held: (u8, Seq<Seq<u8>>), data: Seq<u8>, sd: bool) -> (u8, Seq<Seq<u8>>) {
    (
        if held.1.len() > 0 {
            held.0
        } else {
            data[0]
        },
        held.1 + packet_frames(data, sd).unwrap(),
    )
}

/// A repacketizer: accumulates the frames of one or more packets of the
/// same configuration, then emits them as one re-framed packet.
pub struct Repacketizer {
    toc: u8,
    framesize: i32,
    frames: Vec<Vec<u8>>,
}

impl View for Repacketizer {
    /// The TOC byte of the first packet taken in and the frames held.
    type V = (u8, Seq<Seq<u8>>);

    closed spec fn view(&self) -> (u8, Seq<Seq<u8>>) {
        (self.toc, Seq::new(self.frames@.len(), |i: int| self.frames@[i]@))
    }
}

impl Default for Repacketizer {
    /// An empty repacketizer.
    fn default() -> (r: Self)
        ensures
            r.wf(),
            r@ == (0u8, Seq::<Seq<u8>>::empty()),
    {
        Repacketizer::new()
    }
}

/// What `cat` answers for a packet offered to a repacketizer holding `held`:
/// the error it reports, or `Ok` when it takes the packet's frames.
pub open spec fn cat_check(held: (u8, Seq<Seq<u8>>), data: Seq<u8>, sd: bool) -> Result<(), &'static str> {
    if data.len() == 0 {
        Err("invalid packet")
    } else if held.1.len() > 0 && held.0 / 4 != data[0] / 4 {
        Err("toc mismatch")
    } else {
        let toc = if held.1.len() > 0 {
            held.0
        } else {
            data[0]
        };
        match spec_nb_frames(data) {
            None => Err("invalid packet"),
            Some(n) => if n < 1 {
                Err("invalid packet")
            } else if (n + held.1.len()) * spec_samples_per_frame(toc, 8000) > 960 {
                Err("packet exceeds 120 ms")
            } else if parse_model(data, sd) is None {
                Err("invalid packet")
            } else {
                Ok(())
            },
        }
    }
}

impl Repacketizer {
    /// The invariant: the held frames obey `frames_hold`, and the cached
    /// frame size is that of the held configuration.
    pub closed spec fn wf(&self) -> bool {
        &&& frames_hold(self@.0, self@.1)
        &&& self.frames@.len() > 0 ==> self.framesize == spec_samples_per_frame(self.toc, 8000)
    }

    /// What a repacketizer holds obeys `frames_hold`.
    pub proof fn lemma_holds(&self)
        requires
            self.wf(),
        ensures
            frames_hold(self@.0, self@.1),
    {
    }

    /// An empty repacketizer: no frames held, and the TOC byte 0 until a
    /// packet is taken in.
    pub fn new() -> (r: Self)
        ensures
            r.wf(),
            r@ == (0u8, Seq::<Seq<u8>>::empty()),
    {
        let r = Repacketizer { toc: 0, framesize: 0, frames: Vec::new() };
        assert(r@.1 =~= Seq::<Seq<u8>>::empty());
        r
    }

    /// The number of frames held.
    pub fn nb_frames(&self) -> (r: usize)
        ensures
            r == self@.1.len(),
    {
        self.frames.len()
    }

    /// Appends the frames of `data`. Errors if the
    /// TOC configuration differs from that of the frames already held, or if
    /// the frames held would exceed 120 ms.
    pub fn cat(&mut self, data: &[u8]) -> (r: Result<(), &'static str>)
        requires
            old(self).wf(),
            data@.len() <= i32::MAX,
        ensures
            final(self).wf(),
            r == cat_check(old(self)@, data@, false),
            r is Ok ==> final(self)@ == cat_result(old(self)@, data@, false),
            r is Ok ==> final(self)@.0 / 8 == data@[0] / 8 && spec_channels_from_toc(final(self)@.0)
                == spec_channels_from_toc(data@[0]),
            r is Err ==> final(self)@.1 == old(self)@.1 && (old(self)@.1.len() > 0 ==> final(self)@.0
                == old(self)@.0),
    {
        let ghost held = self@;
        let r = self.cat_impl(data, false);
        proof {
            if r is Ok {
                lemma_cat_same_stream(held, data@, false);
            }
        }
        r
    }

    fn cat_impl(&mut self, data: &[u8], self_delimited: bool) -> (r: Result<(), &'static str>)
        requires
            old(self).wf(),
            data@.len() <= i32::MAX,
        ensures
            final(self).wf(),
            r == cat_check(old(self)@, data@, self_delimited),
            r is Ok ==> final(self)@ == cat_result(old(self)@, data@, self_delimited),
            r is Err ==> final(self)@.1 == old(self)@.1 && (old(self)@.1.len() > 0 ==> final(self)@.0
                == old(self)@.0),
    {
        if data.len() == 0 {
            return Err("invalid packet");
        }
        let ghost held = self@;
        proof {
            lemma_samples_per_frame_rates(self.toc);
            lemma_samples_per_frame_rates(data[0]);
            assert(self@.1.len() <= 48) by (nonlinear_arith)
                requires
                    self@.1.len() * spec_samples_per_frame(self.toc, 8000) <= 960,
                    20 <= spec_samples_per_frame(self.toc, 8000),
            ;
        }
        if self.frames.len() == 0 {
            self.toc = data[0];
            self.framesize = samples_per_frame(data[0], 8000);
            assert(self@.1 == held.1);
        } else if self.toc / 4 != data[0] / 4 {
            return Err("toc mismatch");
        }
        let curr = match nb_frames(data) {
            Ok(n) => n,
            Err(e) => {
                return Err(e);
            },
        };
        if curr < 1 {
            return Err("invalid packet");
        }
        let held_len = self.frames.len();
        assert((curr + held_len) * self.framesize <= 111 * 480) by (nonlinear_arith)
            requires
                1 <= curr <= 63,
                held_len <= 48,
                20 <= self.framesize <= 480,
        ;
        if (curr as usize + held_len) as i32 * self.framesize > 960 {
            return Err("packet exceeds 120 ms");
        }
        let (_toc, ranges, _off) = match parse_packet(data, self_delimited) {
            Ok(p) => p,
            Err(e) => {
                return Err(e);
            },
        };
        let ghost hdr = parse_model(data@, self_delimited).unwrap().0;
        let ghost sizes = parse_model(data@, self_delimited).unwrap().1;
        let ghost new_frames = frames_of(data@, hdr, sizes);
        proof {
            lemma_parse_model_facts(data@, self_delimited);
        }
        let mut k: usize = 0;
        while k < ranges.len()
            invariant
                k <= ranges@.len(),
                data@.len() <= i32::MAX,
                data@.len() > 0,
                ranges@.len() == sizes.len(),
                new_frames == frames_of(data@, hdr, sizes),
                forall|i: int|
                    0 <= i < sizes.len() ==> (#[trigger] ranges@[i]).0 == frame_offset(hdr, sizes, i)
                        && ranges@[i].1 == sizes[i] && ranges@[i].0 + ranges@[i].1 <= data@.len(),
                forall|i: int| 0 <= i < sizes.len() ==> 0 <= #[trigger] sizes[i] <= 1275,
                self.frames@.len() == held_len + k,
                self.toc == (if held.1.len() > 0 {
                    held.0
                } else {
                    data@[0]
                }),
                self@.1 == held.1 + new_frames.take(k as int),
                held.1.len() == held_len,
                self.framesize == spec_samples_per_frame(self.toc, 8000),
                frames_hold(held.0, held.1),
            decreases ranges@.len() - k,
        {
            let (o, l) = ranges[k];
            let mut f: Vec<u8> = Vec::new();
            append_bytes(&mut f, &data[o..o + l]);
            assert(f@ =~= new_frames[k as int]);
            let ghost prev = self@.1;
            self.frames.push(f);
            assert(self@.1 =~= prev.push(new_frames[k as int]));
            assert(new_frames.take(k + 1) =~= new_frames.take(k as int).push(new_frames[k as int]));
            k = k + 1;
            assert(self@.1 =~= held.1 + new_frames.take(k as int));
        }
        assert(new_frames.take(k as int) =~= new_frames);
        proof {
            assert forall|i: int| 0 <= i < self@.1.len() implies (#[trigger] self@.1[i]).len() <= 1275 by {
                if i >= held_len {
                    assert(self@.1[i] == new_frames[i - held_len]);
                    let r = ranges@[i - held_len];
                    assert(r.0 + r.1 <= data@.len());
                } else {
                    assert(self@.1[i] == held.1[i]);
                }
            }
        }
        Ok(())
    }

    /// Emits frames `[begin, end)` as one packet.
    pub fn out_range(&self, begin: usize, end: usize) -> (r: Result<Vec<u8>, &'static str>)
        requires
            self.wf(),
        ensures
            match r {
                Ok(v) => {
                    &&& begin < end <= self@.1.len()
                    &&& v@ == spec_out(self@.0, self@.1.subrange(begin as int, end as int), None, false)
                    &&& packet_frames(v@, false) == Some(self@.1.subrange(begin as int, end as int))
                },
                Err(e) => !(begin < end <= self@.1.len()) && e == "bad arg",
            },
    {
        let r = self.out_range_impl(begin, end, None);
        proof {
            if r is Ok {
                lemma_frames_hold_subrange(self@.0, self@.1, begin as int, end as int);
                lemma_out_frames(self@.0, self@.1.subrange(begin as int, end as int), None);
            }
        }
        r
    }

    /// Emits all held frames as one packet.
    pub fn out(&self) -> (r: Result<Vec<u8>, &'static str>)
        requires
            self.wf(),
        ensures
            match r {
                Ok(v) => {
                    &&& self@.1.len() > 0
                    &&& v@ == spec_out(self@.0, self@.1, None, false)
                    &&& packet_frames(v@, false) == Some(self@.1)
                },
                Err(e) => self@.1.len() == 0 && e == "bad arg",
            },
    {
        let r = self.out_range_impl(0, self.frames.len(), None);
        assert(self@.1.subrange(0, self@.1.len() as int) =~= self@.1);
        proof {
            if r is Ok {
                lemma_out_frames(self@.0, self@.1, None);
            }
        }
        r
    }

    fn out_range_impl(&self, begin: usize, end: usize, pad_to: Option<usize>) -> (r: Result<
        Vec<u8>,
        &'static str,
    >)
        requires
            self.wf(),
        ensures
            match r {
                Ok(v) => begin < end <= self@.1.len() && v@ == spec_out(
                    self@.0,
                    self@.1.subrange(begin as int, end as int),
                    pad_to,
                    false,
                ),
                Err(e) => !(begin < end <= self@.1.len()) && e == "bad arg",
            },
    {
        self.out_range_full(begin, end, pad_to, false)
    }

    /// Emits all held frames with the self-delimited framing multistream
    /// packets use: the last frame's length is coded too, so the packet's
    /// total size can be found from its bytes.
    pub fn out_self_delimited(&self) -> (r: Result<Vec<u8>, &'static str>)
        requires
            self.wf(),
        ensures
            match r {
                Ok(v) => {
                    &&& self@.1.len() > 0
                    &&& v@ == spec_out(self@.0, self@.1, None, true)
                    &&& forall|rest: Seq<u8>| #[trigger] reads_back(v@, rest, true, self@.0, self@.1)
                },
                Err(e) => self@.1.len() == 0 && e == "bad arg",
            },
    {
        let r = self.out_range_full(0, self.frames.len(), None, true);
        assert(self@.1.subrange(0, self@.1.len() as int) =~= self@.1);
        proof {
            if r is Ok {
                assert forall|rest: Seq<u8>| #[trigger] reads_back(r.unwrap()@, rest, true, self@.0, self@.1) by {
                    lemma_out_parse_roundtrip(self@.0, self@.1, None, true, rest);
                }
            }
        }
        r
    }

    /// The held frames `[begin, end)`, each of at most 1275 bytes.
    proof fn lemma_range(&self, begin: int, end: int, fs: Seq<Seq<u8>>)
        requires
            self.wf(),
            0 <= begin < end <= self@.1.len(),
            fs == self@.1.subrange(begin, end),
        ensures
            end - begin <= 48,
            forall|j: int|
                0 <= j < end - begin ==> #[trigger] fs[j] == self.frames@[begin + j]@
                    && self.frames@[begin + j]@.len() <= 1275,
    {
        lemma_samples_per_frame_rates(self.toc);
        assert(self@.1.len() <= 48) by (nonlinear_arith)
            requires
                self@.1.len() * spec_samples_per_frame(self.toc, 8000) <= 960,
                20 <= spec_samples_per_frame(self.toc, 8000),
        ;
        assert forall|j: int| 0 <= j < end - begin implies #[trigger] fs[j]
            == self.frames@[begin + j]@ && self.frames@[begin + j]@.len() <= 1275 by {
            assert(self@.1[begin + j] == self.frames@[begin + j]@);
        }
    }

    /// Whether the lengths of frames `[begin, end)` differ.
    fn frames_vary(&self, begin: usize, end: usize) -> (vbr: bool)
        requires
            self.wf(),
            begin < end <= self@.1.len(),
        ensures
            vbr == !all_same_len(self@.1.subrange(begin as int, end as int)),
    {
        let ghost fs = self@.1.subrange(begin as int, end as int);
        proof {
            self.lemma_range(begin as int, end as int, fs);
        }
        let count = end - begin;
        let first_len = self.frames[begin].len();
        let mut vbr = false;
        let mut i: usize = 1;
        while i < count
            invariant
                1 <= i <= count,
                count == end - begin,
                begin < end <= self.frames@.len(),
                first_len == fs[0].len(),
                fs == self@.1.subrange(begin as int, end as int),
                forall|j: int| 0 <= j < end - begin ==> #[trigger] fs[j] == self.frames@[begin + j]@,
                vbr == (exists|j: int| 0 <= j < i && #[trigger] fs[j].len() != fs[0].len()),
            decreases count - i,
        {
            assert(fs[i as int] == self.frames@[begin + i]@);
            if self.frames[begin + i].len() != first_len {
                vbr = true;
            }
            i = i + 1;
        }
        assert(vbr == !all_same_len(fs)) by {
            if vbr {
                let j = choose|j: int| 0 <= j < count && #[trigger] fs[j].len() != fs[0].len();
                assert(fs[j].len() != fs[0].len());
            }
        }
        vbr
    }

    /// Size of a code-3 packet holding frames `[begin, end)`, unpadded.
    fn code3_unpadded(&self, begin: usize, end: usize, vbr: bool) -> (tot: usize)
        requires
            self.wf(),
            begin < end <= self@.1.len(),
        ensures
            tot == code3_size(self@.1.subrange(begin as int, end as int), vbr),
            tot <= 2 + 1277 * 48,
    {
        let ghost fs = self@.1.subrange(begin as int, end as int);
        proof {
            self.lemma_range(begin as int, end as int, fs);
        }
        let count = end - begin;
        let mut tot: usize = 2;
        if vbr {
            let mut k: usize = 0;
            while k < count - 1
                invariant
                    k <= count - 1,
                    count == end - begin,
                    count <= 48,
                    begin < end <= self.frames@.len(),
                    forall|j: int|
                        0 <= j < end - begin ==> #[trigger] fs[j] == self.frames@[begin + j]@ && self.frames@[begin
                            + j]@.len() <= 1275,
                    tot == 2 + seq_sum(
                        Seq::new(k as nat, |j: int| size_code_len(fs[j].len() as int) + fs[j].len()),
                    ),
                    tot <= 2 + 1277 * k,
                decreases count - 1 - k,
            {
                assert(fs[k as int] == self.frames@[begin + k]@);
                let l = self.frames[begin + k].len();
                proof {
                    let f = |j: int| size_code_len(fs[j].len() as int) + fs[j].len();
                    assert(Seq::new((k + 1) as nat, f).drop_last() =~= Seq::new(k as nat, f));
                }
                tot = tot + (1 + (if l >= 252 {
                    1
                } else {
                    0
                }) + l);
                k = k + 1;
            }
            assert(fs[count - 1] == self.frames@[begin + count - 1]@);
            tot = tot + self.frames[end - 1].len();
        } else {
            assert(fs[0] == self.frames@[begin + 0]@);
            let l0 = self.frames[begin].len();
            assert(count * l0 <= 48 * 1275) by (nonlinear_arith)
                requires
                    count <= 48,
                    l0 <= 1275,
            ;
            tot = tot + count * l0;
        }
        tot
    }

    /// Appends the length codes of frames `[begin, end - 1)`.
    fn write_codes(&self, out: &mut Vec<u8>, begin: usize, end: usize)
        requires
            self.wf(),
            begin < end <= self@.1.len(),
        ensures
            final(out)@ == old(out)@ + concat_codes(
                frame_lens(self@.1.subrange(begin as int, end as int)).drop_last(),
            ),
    {
        let ghost fs = self@.1.subrange(begin as int, end as int);
        let ghost ls = frame_lens(fs);
        let ghost start = out@;
        proof {
            self.lemma_range(begin as int, end as int, fs);
        }
        let count = end - begin;
        let mut k: usize = 0;
        while k < count - 1
            invariant
                k <= count - 1,
                count == end - begin,
                begin < end <= self.frames@.len(),
                ls == frame_lens(fs),
                ls.len() == count,
                forall|j: int|
                    0 <= j < end - begin ==> #[trigger] fs[j] == self.frames@[begin + j]@ && self.frames@[begin
                        + j]@.len() <= 1275,
                out@ == start + concat_codes(ls.take(k as int)),
            decreases count - 1 - k,
        {
            assert(fs[k as int] == self.frames@[begin + k]@);
            encode_size(self.frames[begin + k].len() as i32, out);
            proof {
                assert(ls.take(k + 1).drop_last() =~= ls.take(k as int));
                assert(ls[k as int] == fs[k as int].len());
            }
            k = k + 1;
        }
        assert(ls.take(count - 1) =~= ls.drop_last());
    }

    /// Appends the bytes of frames `[begin, end)`.
    fn write_frames(&self, out: &mut Vec<u8>, begin: usize, end: usize)
        requires
            self.wf(),
            begin < end <= self@.1.len(),
        ensures
            final(out)@ == old(out)@ + concat_frames(self@.1.subrange(begin as int, end as int)),
    {
        let ghost fs = self@.1.subrange(begin as int, end as int);
        let ghost start = out@;
        proof {
            self.lemma_range(begin as int, end as int, fs);
        }
        let count = end - begin;
        let mut k: usize = 0;
        while k < count
            invariant
                k <= count,
                count == end - begin,
                begin < end <= self.frames@.len(),
                forall|j: int| 0 <= j < end - begin ==> #[trigger] fs[j] == self.frames@[begin + j]@,
                fs.len() == count,
                out@ == start + concat_frames(fs.take(k as int)),
            decreases count - k,
        {
            assert(fs[k as int] == self.frames@[begin + k]@);
            append_bytes(out, self.frames[begin + k].as_slice());
            proof {
                assert(fs.take(k + 1).drop_last() =~= fs.take(k as int));
            }
            k = k + 1;
        }
        assert(fs.take(count as int) =~= fs);
    }

    /// Emits frames `[begin, end)` as one packet, padded to `pad_to` bytes if
    /// given, with the self-delimited framing if `self_delimited`.
    fn out_range_full(
        &self,
        begin: usize,
        end: usize,
        pad_to: Option<usize>,
        self_delimited: bool,
    ) -> (r: Result<Vec<u8>, &'static str>)
        requires
            self.wf(),
        ensures
            match r {
                Ok(v) => begin < end <= self@.1.len() && v@ == spec_out(
                    self@.0,
                    self@.1.subrange(begin as int, end as int),
                    pad_to,
                    self_delimited,
                ),
                Err(e) => !(begin < end <= self@.1.len()) && e == "bad arg",
            },
    {
        if begin >= end || end > self.frames.len() {
            return Err("bad arg");
        }
        if end - begin > 2 || pad_to.is_some() {
            // Code 3: needed for more than two frames, or to carry padding.
            Ok(self.out_code3(begin, end, pad_to, self_delimited))
        } else {
            Ok(self.out_short(begin, end, self_delimited))
        }
    }

    /// One or two frames, unpadded: code 0, 1 or 2.
    #[verifier::spinoff_prover]
    #[verifier::rlimit(40)]
    fn out_short(&self, begin: usize, end: usize, self_delimited: bool) -> (out: Vec<u8>)
        requires
            self.wf(),
            begin < end <= self@.1.len(),
            end - begin <= 2,
        ensures
            out@ == spec_out(self@.0, self@.1.subrange(begin as int, end as int), None, self_delimited),
    {
        let count = end - begin;
        let ghost fs = self@.1.subrange(begin as int, end as int);
        let ghost n = count as int;
        proof {
            self.lemma_range(begin as int, end as int, fs);
        }
        let t: u8 = self.toc / 4 * 4;
        let ghost sdc = if self_delimited {
            size_code(fs[n - 1].len() as int)
        } else {
            Seq::<u8>::empty()
        };
        let mut out: Vec<u8> = Vec::new();
        if count == 1 {
            out.push(t);
        } else {
            assert(fs[0] == self.frames@[begin + 0]@);
            assert(fs[1] == self.frames@[begin + 1]@);
            if self.frames[begin].len() == self.frames[begin + 1].len() {
                out.push(t + 1);
            } else {
                out.push(t + 2);
                encode_size(self.frames[begin].len() as i32, &mut out);
            }
        }
        let ghost head = out@;
        if self_delimited {
            assert(fs[n - 1] == self.frames@[begin + n - 1]@);
            encode_size(self.frames[end - 1].len() as i32, &mut out);
        } else {
            assert(out@ =~= head + Seq::<u8>::empty());
        }
        self.write_frames(&mut out, begin, end);
        proof {
            lemma_concat_frames_small(fs);
        }
        out
    }

    /// Code 3: the count byte, padding, the varying sizes, then the frames.
    fn out_code3(&self, begin: usize, end: usize, pad_to: Option<usize>, self_delimited: bool) -> (out:
        Vec<u8>)
        requires
            self.wf(),
            begin < end <= self@.1.len(),
            end - begin > 2 || pad_to is Some,
        ensures
            out@ == spec_out(self@.0, self@.1.subrange(begin as int, end as int), pad_to, self_delimited),
    {
        let count = end - begin;
        let ghost fs = self@.1.subrange(begin as int, end as int);
        let ghost n = count as int;
        proof {
            self.lemma_range(begin as int, end as int, fs);
        }
        let t: u8 = self.toc / 4 * 4;
        let ghost sdc = if self_delimited {
            size_code(fs[n - 1].len() as int)
        } else {
            Seq::<u8>::empty()
        };
        let mut out: Vec<u8> = Vec::new();
        let vbr = self.frames_vary(begin, end);
        let tot = self.code3_unpadded(begin, end, vbr);
        let pad_amount: usize = match pad_to {
            Some(m) => if m > tot {
                m - tot
            } else {
                0
            },
            None => 0,
        };
        let ch: u8 = count as u8 + (if vbr {
            128u8
        } else {
            0u8
        }) + (if pad_amount > 0 {
            64u8
        } else {
            0u8
        });
        out.push(t + 3);
        out.push(ch);
        let ghost hdr = out@;
        assert(hdr =~= seq![(t + 3) as u8, ch]);
        if pad_amount != 0 {
            write_padding(&mut out, pad_amount);
        } else {
            assert(out@ =~= hdr + Seq::<u8>::empty());
        }
        let ghost with_pad = out@;
        if vbr {
            self.write_codes(&mut out, begin, end);
        } else {
            assert(out@ =~= with_pad + Seq::<u8>::empty());
        }
        let ghost with_codes = out@;
        if self_delimited {
            assert(fs[n - 1] == self.frames@[begin + n - 1]@);
            encode_size(self.frames[end - 1].len() as i32, &mut out);
        } else {
            assert(out@ =~= with_codes + Seq::<u8>::empty());
        }
        self.write_frames(&mut out, begin, end);
        let ghost body = out@;
        if let Some(m) = pad_to {
            while out.len() < m
                invariant
                    body.len() <= out@.len(),
                    out@.len() <= (if body.len() >= m {
                        body.len() as int
                    } else {
                        m as int
                    }),
                    out@ == body + Seq::new((out@.len() - body.len()) as nat, |j: int| 0u8),
                decreases m - out@.len(),
            {
                out.push(0);
                assert(out@ =~= body + Seq::new((out@.len() - body.len()) as nat, |j: int| 0u8));
            }
            proof {
                if body.len() >= m as nat {
                    assert(out@ =~= body);
                }
            }
        }
        out
    }

}

/// What a repacketizer holds stays within its limits: when `cat` takes a
/// packet, the frames held afterwards are again at most 1275 bytes each and
/// at most 120 ms together.
pub proof fn lemma_cat_keeps_hold(held: (u8, Seq<Seq<u8>>), data: Seq<u8>, sd: bool)
    requires
        frames_hold(held.0, held.1),
        cat_check(held, data, sd) is Ok,
    ensures
        frames_hold(cat_result(held, data, sd).0, cat_result(held, data, sd).1),
{
    lemma_packet_frames_facts(data, sd);
    let fs = packet_frames(data, sd).unwrap();
    let all = cat_result(held, data, sd).1;
    assert forall|i: int| 0 <= i < all.len() implies (#[trigger] all[i]).len() <= 1275 by {
        if i < held.1.len() {
            assert(all[i] == held.1[i]);
        } else {
            assert(all[i] == fs[i - held.1.len()]);
        }
    }
}

/// A repacketizer only merges packets of one stream: when it takes a packet
/// while holding frames, the packet has the held configuration (bits 3 to
/// 7 of the TOC byte) and the held channel count (the stereo flag), and
/// after it takes a packet its TOC byte has that packet's configuration
/// and channel count.
pub proof fn lemma_cat_same_stream(held: (u8, Seq<Seq<u8>>), data: Seq<u8>, sd: bool)
    requires
        cat_check(held, data, sd) is Ok,
    ensures
        held.1.len() > 0 ==> held.0 / 8 == data[0] / 8 && spec_channels_from_toc(held.0)
            == spec_channels_from_toc(data[0]),
        cat_result(held, data, sd).0 / 8 == data[0] / 8,
        spec_channels_from_toc(cat_result(held, data, sd).0) == spec_channels_from_toc(data[0]),
{
    if held.1.len() > 0 {
        let a = held.0;
        let b = data[0];
        assert(a / 8 == b / 8 && (a / 4) % 2 == (b / 4) % 2) by (bit_vector)
            requires
                a / 4 == b / 4,
        ;
    }
}

/// Merging packets keeps their frames: after a repacketizer takes two
/// packets, the packet it writes holds the first packet's frames followed
/// by the second's.
pub proof fn lemma_merge_frames(first: Seq<u8>, second: Seq<u8>)
    requires
        cat_check((0u8, Seq::empty()), first, false) is Ok,
        cat_check(cat_result((0u8, Seq::empty()), first, false), second, false) is Ok,
    ensures
        ({
            let held = cat_result(cat_result((0u8, Seq::empty()), first, false), second, false);
            &&& held.1 == packet_frames(first, false).unwrap() + packet_frames(second, false).unwrap()
            &&& packet_frames(spec_out(held.0, held.1, None, false), false) == Some(held.1)
        }),
{
    let empty = (0u8, Seq::<Seq<u8>>::empty());
    let one = cat_result(empty, first, false);
    lemma_cat_keeps_hold(empty, first, false);
    lemma_cat_keeps_hold(one, second, false);
    assert(Seq::<Seq<u8>>::empty() + packet_frames(first, false).unwrap() =~= packet_frames(first, false).unwrap());
    lemma_packet_frames_facts(first, false);
    let held = cat_result(one, second, false);
    lemma_out_frames(held.0, held.1, None);
}

/// Padding a packet and stripping the padding again gives the packet's
/// unpadded form: `unpad_packet` accepts every packet `pad_packet` grows,
/// finds the same frames in it, and returns what it returns for the
/// packet before padding.
pub proof fn lemma_pad_then_unpad(packet: Seq<u8>, new_len: usize)
    requires
        pad_check(packet, new_len) is Ok,
        packet.len() < new_len,
    ensures
        ({
            let fs = packet_frames(packet, false).unwrap();
            let padded = spec_out(packet[0], fs, Some(new_len), false);
            &&& unpad_check(padded) is Ok
            &&& packet_frames(padded, false) == packet_frames(packet, false)
            &&& spec_out(padded[0], packet_frames(padded, false).unwrap(), None, false) == spec_out(
                packet[0],
                fs,
                None,
                false,
            )
        }),
{
    let fs = packet_frames(packet, false).unwrap();
    lemma_cat_keeps_hold((0u8, Seq::empty()), packet, false);
    assert(Seq::<Seq<u8>>::empty() + fs =~= fs);
    lemma_code3_size_of_parsed(packet);
    let padded = spec_out(packet[0], fs, Some(new_len), false);
    lemma_out_parse_roundtrip(packet[0], fs, Some(new_len), false, Seq::empty());
    assert(padded + Seq::<u8>::empty() =~= padded);
    lemma_out_frames(packet[0], fs, Some(new_len));
    lemma_packet_frames_facts(padded, false);
    let a = padded[0];
    let b = packet[0];
    assert(a / 8 == b / 8) by (bit_vector)
        requires
            a / 4 == b / 4,
    ;
    lemma_samples_per_frame_config(a, b, 8000);
    assert(spec_out(a, fs, None, false) =~= spec_out(b, fs, None, false));
}

/// Unpadding never lengthens a packet and is idempotent: the unpadded form
/// of a packet `unpad_packet` accepts is no longer than the packet, carries
/// no padding flag, holds the same frames, is accepted in turn, and is its
/// own unpadded form.
#[verifier::spinoff_prover]
#[verifier::rlimit(40)]
pub proof fn lemma_unpad_idempotent(packet: Seq<u8>)
    requires
        unpad_check(packet) is Ok,
    ensures
        ({
            let fs = packet_frames(packet, false).unwrap();
            let u = spec_out(packet[0], fs, None, false);
            &&& u.len() <= packet.len()
            &&& u[0] % 4 == 3 ==> (u[1] / 64) % 2 == 0
            &&& unpad_check(u) is Ok
            &&& packet_frames(u, false) == Some(fs)
            &&& spec_out(u[0], packet_frames(u, false).unwrap(), None, false) == u
        }),
{
    let fs = packet_frames(packet, false).unwrap();
    lemma_cat_keeps_hold((0u8, Seq::empty()), packet, false);
    assert(Seq::<Seq<u8>>::empty() + fs =~= fs);
    let u = spec_out(packet[0], fs, None, false);
    lemma_out_parse_roundtrip(packet[0], fs, None, false, Seq::empty());
    assert(u + Seq::<u8>::empty() =~= u);
    lemma_out_frames(packet[0], fs, None);
    lemma_unpadded_layout_end(packet[0], fs);
    lemma_packet_frames_facts(u, false);
    lemma_packet_frames_facts(packet, false);
    lemma_parse_model_facts(packet, false);
    let a = u[0];
    let b = packet[0];
    assert(a / 8 == b / 8) by (bit_vector)
        requires
            a / 4 == b / 4,
    ;
    lemma_samples_per_frame_config(a, b, 8000);
    assert(spec_out(a, fs, None, false) =~= spec_out(b, fs, None, false));
    lemma_unpad_len(packet);
}

/// The unpadded form of an accepted packet is no longer than the packet.
#[verifier::spinoff_prover]
#[verifier::rlimit(40)]
proof fn lemma_unpad_len(packet: Seq<u8>)
    requires
        unpad_check(packet) is Ok,
    ensures
        spec_out(packet[0], packet_frames(packet, false).unwrap(), None, false).len() <= packet.len(),
{
    let fs = packet_frames(packet, false).unwrap();
    lemma_cat_keeps_hold((0u8, Seq::empty()), packet, false);
    assert(Seq::<Seq<u8>>::empty() + fs =~= fs);
    let u = spec_out(packet[0], fs, None, false);
    let (hdr, sizes) = parse_model(packet, false).unwrap();
    lemma_packet_frames_facts(packet, false);
    lemma_parse_model_facts(packet, false);
    lemma_parse_header_room(packet);
    let n = fs.len();
    let t = packet[0] / 4 * 4;
    if n > 2 {
        assert(packet[0] % 4 == 3);
        lemma_code3_size_of_parsed(packet);
        lemma_code3_size_parts(fs, !all_same_len(fs));
    } else if n == 1 {
        let l0 = fs[0].len() as int;
        assert(sizes =~= Seq::<int>::empty().push(l0));
        lemma_seq_sum_push(Seq::<int>::empty(), l0);
        assert(u =~= seq![t as u8] + fs[0]);
    } else {
        let l0 = fs[0].len() as int;
        let l1 = fs[1].len() as int;
        assert(sizes =~= Seq::<int>::empty().push(l0).push(l1));
        lemma_seq_sum_push(Seq::<int>::empty(), l0);
        lemma_seq_sum_push(Seq::<int>::empty().push(l0), l1);
        if l0 == l1 {
            assert(u =~= seq![(t + 1) as u8] + fs[0] + fs[1]);
        } else {
            assert(u =~= seq![(t + 2) as u8] + size_code(l0) + fs[0] + fs[1]);
            assert(size_code(l0).len() == size_code_len(l0));
            assert(sizes[1] != sizes[0]);
            assert(sizes.drop_last() =~= Seq::<int>::empty().push(l0));
            assert(code_len_seq(sizes.drop_last()) =~= Seq::<int>::empty().push(size_code_len(l0)));
            lemma_seq_sum_push(Seq::<int>::empty(), size_code_len(l0));
        }
    }
}

/// What `pad_packet` answers for `packet` and a target length.
pub open spec fn pad_check(packet: Seq<u8>, new_len: usize) -> Result<(), &'static str> {
    if packet.len() == 0 {
        Err("bad arg")
    } else if packet.len() == new_len {
        Ok(())
    } else if packet.len() > new_len {
        Err("bad arg")
    } else {
        cat_check((0u8, Seq::empty()), packet, false)
    }
}

/// What `unpad_packet` answers for `packet`.
pub open spec fn unpad_check(packet: Seq<u8>) -> Result<(), &'static str> {
    if packet.len() == 0 {
        Err("bad arg")
    } else {
        cat_check((0u8, Seq::empty()), packet, false)
    }
}

/// Grows `packet` in place to `new_len` bytes by adding
/// Opus padding (no re-encoding). Nothing to do if it is already `new_len`
/// bytes long; an error if it is longer.
pub fn pad_packet(packet: &mut Vec<u8>, new_len: usize) -> (r: Result<(), &'static str>)
    requires
        old(packet)@.len() <= i32::MAX,
    ensures
        r == pad_check(old(packet)@, new_len),
        r is Err || old(packet)@.len() == new_len ==> final(packet)@ == old(packet)@,
        r is Ok && old(packet)@.len() < new_len ==> final(packet)@ == spec_out(
            old(packet)@[0],
            packet_frames(old(packet)@, false).unwrap(),
            Some(new_len),
            false,
        ),
        r is Ok ==> final(packet)@.len() == new_len,
        r is Ok ==> packet_frames(final(packet)@, false) == packet_frames(old(packet)@, false),
{
    if packet.len() == 0 {
        return Err("bad arg");
    }
    if packet.len() == new_len {
        return Ok(());
    }
    if packet.len() > new_len {
        return Err("bad arg");
    }
    let mut rp = Repacketizer::new();
    match rp.cat(packet.as_slice()) {
        Ok(()) => {},
        Err(e) => {
            return Err(e);
        },
    }
    assert(rp@.1 =~= packet_frames(packet@, false).unwrap());
    let padded = match rp.out_range_impl(0, rp.nb_frames(), Some(new_len)) {
        Ok(v) => v,
        Err(e) => {
            return Err(e);
        },
    };
    assert(rp@.1.subrange(0, rp@.1.len() as int) =~= rp@.1);
    proof {
        rp.lemma_holds();
        lemma_code3_size_of_parsed(packet@);
        lemma_padded_len(packet@[0], rp@.1, new_len);
        lemma_out_frames(packet@[0], rp@.1, Some(new_len));
    }
    *packet = padded;
    Ok(())
}

/// Strips Opus padding, giving the minimal packet.
pub fn unpad_packet(packet: &[u8]) -> (r: Result<Vec<u8>, &'static str>)
    requires
        packet@.len() <= i32::MAX,
    ensures
        match r {
            Ok(v) => {
                &&& unpad_check(packet@) is Ok
                &&& v@ == spec_out(packet@[0], packet_frames(packet@, false).unwrap(), None, false)
                &&& packet_frames(v@, false) == packet_frames(packet@, false)
            },
            Err(e) => unpad_check(packet@) == Err::<(), &'static str>(e),
        },
{
    if packet.len() == 0 {
        return Err("bad arg");
    }
    let mut rp = Repacketizer::new();
    match rp.cat(packet) {
        Ok(()) => {},
        Err(e) => {
            return Err(e);
        },
    }
    assert(rp@.1 =~= packet_frames(packet@, false).unwrap());
    assert(rp@.1.subrange(0, rp@.1.len() as int) =~= rp@.1);
    proof {
        rp.lemma_holds();
        lemma_code3_size_of_parsed(packet@);
        lemma_out_frames(packet@[0], rp@.1, None);
    }
    rp.out_range_impl(0, rp.nb_frames(), None)
}

} // verus!
