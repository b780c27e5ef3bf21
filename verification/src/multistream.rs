//! Multistream channel layouts: how the output channels of a surround stream map
//! onto a set of coupled (stereo) and mono Opus streams, and how a total
//! bitrate is shared among those streams.

use vstd::prelude::*;
use crate::framing::{
    lemma_out_parse_roundtrip, lemma_packet_frames_facts, packet_frames, parse_model, seq_sum,
    spec_out,
};
use crate::repacketizer::{
    append_bytes, cat_check, lemma_cat_keeps_hold, parse_packet, Repacketizer,
};
use crate::tdiv;

verus! {

/// Stream count, coupled-stream count and channel mapping of the Vorbis
/// channel order (mapping family 1) for 1 to 8 channels: mono, stereo,
/// 3.0, quad, 5.0, 5.1, 6.1, 7.1.
pub open spec fn vorbis_layout(channels: int) -> (int, int, Seq<u8>) {
    if channels == 1 {
        (1, 0, seq![0u8])
    } else if channels == 2 {
        (1, 1, seq![0u8, 1])
    } else if channels == 3 {
        (2, 1, seq![0u8, 2, 1])
    } else if channels == 4 {
        (2, 2, seq![0u8, 1, 2, 3])
    } else if channels == 5 {
        (3, 2, seq![0u8, 4, 1, 2, 3])
    } else if channels == 6 {
        (4, 2, seq![0u8, 4, 1, 2, 3, 5])
    } else if channels == 7 {
        (4, 3, seq![0u8, 4, 1, 2, 3, 5, 6])
    } else {
        (5, 3, seq![0u8, 6, 1, 2, 3, 4, 5, 7])
    }
}

/// How the channels of a multistream signal map onto its streams. Stream
/// channel `k` is the left (`k = 2s`) or right (`k = 2s + 1`) channel of
/// coupled stream `s < nb_coupled_streams`, or the only channel of stream
/// `k - nb_coupled_streams`; output channel `c` is fed by stream channel
/// `mapping[c]` (255 silences it).
#[derive(Clone)]
pub struct ChannelLayout {
    pub nb_channels: usize,
    pub nb_streams: usize,
    pub nb_coupled_streams: usize,
    pub mapping: Vec<u8>,
}

/// The layout `surround` builds: `None` for an unsupported channel count or
/// family, else (channels, streams, coupled streams, mapping).
pub open spec fn spec_surround(channels: usize, mapping_family: i32) -> Option<(int, int, int, Seq<u8>)> {
    if mapping_family == 0 {
        if channels == 1 {
            Some((1, 1, 0, seq![0u8]))
        } else if channels == 2 {
            Some((2, 1, 1, seq![0u8, 1]))
        } else {
            None
        }
    } else if mapping_family == 1 {
        if 1 <= channels <= 8 {
            let (s, c, m) = vorbis_layout(channels as int);
            Some((channels as int, s, c, m))
        } else {
            None
        }
    } else {
        None
    }
}

/// The first position at or after `start` where `mapping` holds `target`,
/// or -1 when there is none.
pub open spec fn first_match(mapping: Seq<u8>, target: int, start: int) -> int
    decreases mapping.len() - start,
{
    if start < 0 || start >= mapping.len() {
        -1
    } else if mapping[start] == target {
        start
    } else {
        first_match(mapping, target, start + 1)
    }
}

/// Where a channel search resumes: at the start, or after the channel
/// `prev` found last.
pub open spec fn search_start(prev: i32) -> int {
    if prev < 0 {
        0
    } else {
        prev + 1
    }
}

/// Each output channel is fed by its own stream channel, and every stream
/// channel feeds an output channel.
pub open spec fn layout_valid(nb_channels: int, nb_streams: int, nb_coupled_streams: int, mapping: Seq<u8>) -> bool {
    let n = nb_streams + nb_coupled_streams;
    &&& 0 <= nb_coupled_streams <= nb_streams
    &&& mapping.len() == nb_channels
    &&& n == nb_channels
    &&& forall|c: int| 0 <= c < nb_channels ==> #[trigger] mapping[c] < n
    &&& forall|c1: int, c2: int| 0 <= c1 < c2 < nb_channels ==> mapping[c1] != mapping[c2]
    &&& forall|k: int| 0 <= k < n ==> #[trigger] first_match(mapping, k, 0) >= 0
}

/// The position of stream channel `k` in the Vorbis mapping for `channels`
/// channels.
pub open spec fn vorbis_position(channels: int, k: int) -> int {
    let m = vorbis_layout(channels).2;
    if m[k] == k {
        k
    } else if channels == 3 {
        if k == 1 {
            2
        } else {
            1
        }
    } else if channels == 8 {
        if k == 6 {
            1
        } else if k == 7 {
            7
        } else {
            k + 1
        }
    } else {
        if k == 4 {
            1
        } else {
            k + 1
        }
    }
}

/// A position before which `target` does not occur, where it occurs, is
/// what the search finds.
proof fn lemma_first_match_at(mapping: Seq<u8>, target: int, start: int, pos: int)
    requires
        0 <= start <= pos < mapping.len(),
        mapping[pos] == target,
        forall|j: int| start <= j < pos ==> mapping[j] != target,
    ensures
        first_match(mapping, target, start) == pos,
    decreases pos - start,
{
    if start < pos {
        lemma_first_match_at(mapping, target, start + 1, pos);
    }
}

/// The family-1 (Vorbis order) layouts have the stream counts of the Vorbis
/// channel order: mono and stereo one stream (stereo coupled), 3.0 two
/// streams (one coupled), quad two coupled, 5.0 three (two coupled), 5.1
/// four (two coupled), 6.1 four (three coupled), 7.1 five (three coupled);
/// every coupled stream carries a left/right pair of the order.
pub proof fn lemma_surround_vorbis_counts(channels: usize)
    requires
        1 <= channels <= 8,
    ensures
        spec_surround(channels, 1) matches Some((n, s, c, m)) && n == channels && (s, c) == (
            if channels == 1 {
                (1int, 0int)
            } else if channels == 2 {
                (1, 1)
            } else if channels == 3 {
                (2, 1)
            } else if channels == 4 {
                (2, 2)
            } else if channels == 5 {
                (3, 2)
            } else if channels == 6 {
                (4, 2)
            } else if channels == 7 {
                (4, 3)
            } else {
                (5, 3)
            }),
{
}

/// Every layout `surround` builds is valid: its mapping is a permutation of
/// the stream channels.
pub proof fn lemma_surround_valid(channels: usize, mapping_family: i32)
    requires
        spec_surround(channels, mapping_family) is Some,
    ensures
        ({
            let (n, s, c, m) = spec_surround(channels, mapping_family)->0;
            layout_valid(n, s, c, m)
        }),
{
    let (n, s, c, m) = spec_surround(channels, mapping_family)->0;
    assert(forall|i: int| 0 <= i < n ==> #[trigger] m[i] < n);
    assert(forall|c1: int, c2: int| 0 <= c1 < c2 < n ==> m[c1] != m[c2]);
    assert forall|k: int| 0 <= k < n implies #[trigger] first_match(m, k, 0) >= 0 by {
        let pos = if mapping_family == 0 {
            k
        } else {
            vorbis_position(n, k)
        };
        assert(0 <= pos < n && m[pos] == k);
        lemma_first_match_at(m, k, 0, pos);
    }
}

impl ChannelLayout {
    /// The standard layout for a channel count and mapping family: family 0
    /// is mono or stereo in one stream, family 1 the Vorbis surround order
    /// for 1 to 8 channels.
    pub fn surround(channels: usize, mapping_family: i32) -> (r: Result<Self, &'static str>)
        ensures
            match r {
                Ok(layout) => spec_surround(channels, mapping_family) == Some(
                    (
                        layout.nb_channels as int,
                        layout.nb_streams as int,
                        layout.nb_coupled_streams as int,
                        layout.mapping@,
                    ),
                ) && layout_valid(
                    layout.nb_channels as int,
                    layout.nb_streams as int,
                    layout.nb_coupled_streams as int,
                    layout.mapping@,
                ),
                Err(e) => spec_surround(channels, mapping_family) is None && (if mapping_family
                    == 0 {
                    e == "family 0 supports only 1-2 channels"
                } else if mapping_family == 1 {
                    e == "family 1 supports 1-8 channels"
                } else {
                    e == "unsupported mapping family"
                }),
            },
    {
        proof {
            if spec_surround(channels, mapping_family) is Some {
                lemma_surround_valid(channels, mapping_family);
            }
        }
        if mapping_family == 0 {
            if channels == 1 {
                Ok(ChannelLayout { nb_channels: 1, nb_streams: 1, nb_coupled_streams: 0, mapping: vec![0] })
            } else if channels == 2 {
                Ok(
                    ChannelLayout {
                        nb_channels: 2,
                        nb_streams: 1,
                        nb_coupled_streams: 1,
                        mapping: vec![0, 1],
                    },
                )
            } else {
                Err("family 0 supports only 1-2 channels")
            }
        } else if mapping_family == 1 {
            if !(1 <= channels && channels <= 8) {
                return Err("family 1 supports 1-8 channels");
            }
            let (ns, nc, m): (usize, usize, Vec<u8>) = if channels == 1 {
                (1, 0, vec![0])
            } else if channels == 2 {
                (1, 1, vec![0, 1])
            } else if channels == 3 {
                (2, 1, vec![0, 2, 1])
            } else if channels == 4 {
                (2, 2, vec![0, 1, 2, 3])
            } else if channels == 5 {
                (3, 2, vec![0, 4, 1, 2, 3])
            } else if channels == 6 {
                (4, 2, vec![0, 4, 1, 2, 3, 5])
            } else if channels == 7 {
                (4, 3, vec![0, 4, 1, 2, 3, 5, 6])
            } else {
                (5, 3, vec![0, 6, 1, 2, 3, 4, 5, 7])
            };
            Ok(ChannelLayout { nb_channels: channels, nb_streams: ns, nb_coupled_streams: nc, mapping: m })
        } else {
            Err("unsupported mapping family")
        }
    }
}

/// The share of a total bitrate one channel unit gets: a coupled stream
/// counts as two units, a mono stream as one.
pub open spec fn spec_per_unit(total: i32, units: int) -> int {
    if units > 0 {
        tdiv(total as int, units)
    } else {
        total as int
    }
}

impl ChannelLayout {
    /// The number of bitrate units: two per coupled stream, one per mono
    /// stream.
    pub open spec fn units(&self) -> int {
        self.nb_coupled_streams * 2 + (self.nb_streams - self.nb_coupled_streams)
    }

    /// The first position at or after `start` that holds `target`, as an
    /// `i32`, or -1.
    fn find_from(&self, target: usize, start: usize) -> (r: i32)
        ensures
            r == (if first_match(self.mapping@, target as int, start as int) < 0 {
                -1i32
            } else {
                first_match(self.mapping@, target as int, start as int) as i32
            }),
    {
        let mut i = start;
        while i < self.mapping.len()
            invariant
                start <= i,
                first_match(self.mapping@, target as int, start as int) == first_match(
                    self.mapping@,
                    target as int,
                    i as int,
                ),
            decreases self.mapping.len() - i,
        {
            let m = self.mapping[i];
            if m as usize == target {
                return i as i32;
            }
            i += 1;
        }
        -1
    }

    /// The next output channel after `prev` (-1: from the start) fed by the
    /// left channel of coupled stream `stream_id`, or -1.
    pub fn left_channel(&self, stream_id: usize, prev: i32) -> (r: i32)
        requires
            search_start(prev) < self.mapping@.len() ==> stream_id * 2 <= usize::MAX,
        ensures
            r == (if first_match(self.mapping@, stream_id * 2, search_start(prev)) < 0 {
                -1i32
            } else {
                first_match(self.mapping@, stream_id * 2, search_start(prev)) as i32
            }),
    {
        let start: usize = if prev < 0 {
            0
        } else {
            prev as usize + 1
        };
        if start >= self.mapping.len() {
            return -1;
        }
        self.find_from(stream_id * 2, start)
    }

    /// The next output channel after `prev` (-1: from the start) fed by the
    /// right channel of coupled stream `stream_id`, or -1.
    pub fn right_channel(&self, stream_id: usize, prev: i32) -> (r: i32)
        requires
            search_start(prev) < self.mapping@.len() ==> stream_id * 2 + 1 <= usize::MAX,
        ensures
            r == (if first_match(self.mapping@, stream_id * 2 + 1, search_start(prev)) < 0 {
                -1i32
            } else {
                first_match(self.mapping@, stream_id * 2 + 1, search_start(prev)) as i32
            }),
    {
        let start: usize = if prev < 0 {
            0
        } else {
            prev as usize + 1
        };
        if start >= self.mapping.len() {
            return -1;
        }
        self.find_from(stream_id * 2 + 1, start)
    }

    /// The next output channel after `prev` (-1: from the start) fed by mono
    /// stream `stream_id`, or -1.
    pub fn mono_channel(&self, stream_id: usize, prev: i32) -> (r: i32)
        requires
            search_start(prev) < self.mapping@.len() ==> stream_id + self.nb_coupled_streams
                <= usize::MAX,
        ensures
            r == (if first_match(self.mapping@, stream_id + self.nb_coupled_streams, search_start(prev))
                < 0 {
                -1i32
            } else {
                first_match(self.mapping@, stream_id + self.nb_coupled_streams, search_start(prev))
                    as i32
            }),
    {
        let start: usize = if prev < 0 {
            0
        } else {
            prev as usize + 1
        };
        if start >= self.mapping.len() {
            return -1;
        }
        self.find_from(stream_id + self.nb_coupled_streams, start)
    }

    /// The bitrate of each stream when the layout shares `total` b/s: each
    /// coupled stream gets two units, each mono stream one.
    pub fn stream_bitrates(&self, total: i32) -> (r: Vec<i32>)
        requires
            self.nb_coupled_streams <= self.nb_streams,
            self.nb_streams + self.nb_coupled_streams <= i32::MAX,
        ensures
            r@.len() == self.nb_streams,
            forall|s: int|
                0 <= s < self.nb_streams ==> #[trigger] r@[s] == (if s < self.nb_coupled_streams {
                    2 * spec_per_unit(total, self.units())
                } else {
                    spec_per_unit(total, self.units())
                }),
    {
        let units = self.nb_coupled_streams * 2 + (self.nb_streams - self.nb_coupled_streams);
        let per_unit = if units > 0 {
            total / units as i32
        } else {
            total
        };
        let mut r: Vec<i32> = Vec::new();
        let mut s: usize = 0;
        while s < self.nb_streams
            invariant
                s <= self.nb_streams,
                r@.len() == s,
                per_unit == spec_per_unit(total, self.units()),
                self.nb_coupled_streams <= self.nb_streams,
                self.nb_streams + self.nb_coupled_streams <= i32::MAX,
                forall|t: int|
                    0 <= t < s ==> #[trigger] r@[t] == (if t < self.nb_coupled_streams {
                        2 * per_unit
                    } else {
                        per_unit as int
                    }),
            decreases self.nb_streams - s,
        {
            let rate = if s < self.nb_coupled_streams {
                assert(-i32::MAX / 2 <= per_unit <= i32::MAX / 2) by (nonlinear_arith)
                    requires
                        per_unit == tdiv(total as int, self.units()),
                        self.units() >= 2,
                ;
                per_unit * 2
            } else {
                per_unit
            };
            r.push(rate);
            s += 1;
        }
        r
    }
}

/// How a stream other than the last is carried in a multistream packet: its
/// frames re-framed self-delimited, so that its end can be found.
#[verifier::opaque]
pub open spec fn stream_segment(p: Seq<u8>) -> Seq<u8> {
    spec_out(p[0], packet_frames(p, false).unwrap(), None, true)
}

/// The multistream packet of the streams' packets: every stream but the
/// last self-delimited, then the last as it is; the error of the first
/// stream that cannot be re-framed.
pub open spec fn spec_join_streams(ps: Seq<Seq<u8>>) -> Result<Seq<u8>, &'static str>
    decreases ps.len(),
{
    if ps.len() == 0 {
        Ok(Seq::empty())
    } else if ps.len() == 1 {
        Ok(ps[0])
    } else {
        match cat_check((0u8, Seq::empty()), ps[0], false) {
            Err(e) => Err(e),
            Ok(_) => match spec_join_streams(ps.drop_first()) {
                Err(e) => Err(e),
                Ok(rest) => Ok(stream_segment(ps[0]) + rest),
            },
        }
    }
}

/// Where the `n` streams of a multistream packet lie from `pos` on, as
/// (offset, length) pairs: each stream but the last is one self-delimited
/// packet, the last takes the rest.
pub open spec fn spec_split_streams(data: Seq<u8>, pos: int, n: nat) -> Result<Seq<(int, int)>, &'static str>
    decreases n,
{
    if n == 0 {
        Ok(Seq::empty())
    } else if n == 1 {
        Ok(seq![(pos, data.len() - pos)])
    } else {
        match parse_model(data.subrange(pos, data.len() as int), true) {
            None => Err("invalid packet"),
            Some((hdr, sizes)) => {
                let off = hdr + seq_sum(sizes);
                match spec_split_streams(data, pos + off, (n - 1) as nat) {
                    Err(e) => Err(e),
                    Ok(rest) => Ok(seq![(pos, off)] + rest),
                }
            },
        }
    }
}

/// The (offset, length) pairs of a vector, as integers.
pub open spec fn stream_spans(v: Seq<(usize, usize)>) -> Seq<(int, int)> {
    Seq::new(v.len(), |i: int| (v[i].0 as int, v[i].1 as int))
}

/// Finds the byte ranges of the `nb_streams` streams of a multistream
/// packet, as the multistream decoder reads them.
pub fn split_streams(packet: &[u8], nb_streams: usize) -> (r: Result<Vec<(usize, usize)>, &'static str>)
    requires
        packet@.len() <= i32::MAX,
    ensures
        match r {
            Ok(v) => spec_split_streams(packet@, 0, nb_streams as nat) == Ok::<
                Seq<(int, int)>,
                &'static str,
            >(stream_spans(v@)),
            Err(e) => spec_split_streams(packet@, 0, nb_streams as nat) == Err::<
                Seq<(int, int)>,
                &'static str,
            >(e),
        },
{
    let mut spans: Vec<(usize, usize)> = Vec::new();
    let mut pos: usize = 0;
    let mut s: usize = 0;
    assert(stream_spans(spans@) =~= Seq::<(int, int)>::empty());
    while s < nb_streams
        invariant
            s <= nb_streams,
            pos <= packet@.len(),
            packet@.len() <= i32::MAX,
            spans@.len() == s,
            s < nb_streams ==> spec_split_streams(packet@, 0, nb_streams as nat) == (match spec_split_streams(
                packet@,
                pos as int,
                (nb_streams - s) as nat,
            ) {
                Err(e) => Err(e),
                Ok(rest) => Ok(stream_spans(spans@) + rest),
            }),
            s == nb_streams ==> spec_split_streams(packet@, 0, nb_streams as nat) == Ok::<
                Seq<(int, int)>,
                &'static str,
            >(stream_spans(spans@)),
        decreases nb_streams - s,
    {
        let ghost before = spans@;
        if s == nb_streams - 1 {
            spans.push((pos, packet.len() - pos));
            assert(stream_spans(spans@) =~= stream_spans(before) + seq![(pos as int, packet@.len() - pos)]);
        } else {
            let data = &packet[pos..packet.len()];
            assert(data@ =~= packet@.subrange(pos as int, packet@.len() as int));
            let (_toc, _frames, off) = match parse_packet(data, true) {
                Ok(x) => x,
                Err(e) => {
                    return Err(e);
                },
            };
            proof {
                crate::framing::lemma_parse_model_facts(data@, true);
            }
            spans.push((pos, off));
            assert(stream_spans(spans@) =~= stream_spans(before) + seq![(pos as int, off as int)]);
            pos += off;
        }
        s += 1;
        proof {
            // the span just found goes between those before and the rest
            if s < nb_streams {
                let rest = spec_split_streams(packet@, pos as int, (nb_streams - s) as nat)->Ok_0;
                let last = stream_spans(spans@).last();
                assert(stream_spans(spans@) =~= stream_spans(before).push(last));
                assert(stream_spans(spans@) + rest =~= stream_spans(before) + (seq![last] + rest));
            }
        }
    }
    Ok(spans)
}

/// The bytes of each packet of a vector.
pub open spec fn packet_views(v: Seq<Vec<u8>>) -> Seq<Seq<u8>> {
    Seq::new(v.len(), |i: int| v[i]@)
}

/// The self-delimited segments of the first `k` streams, back to back.
pub open spec fn joined_segments(ps: Seq<Seq<u8>>, k: nat) -> Seq<u8>
    decreases k,
{
    if k == 0 || ps.len() == 0 {
        Seq::empty()
    } else {
        stream_segment(ps[0]) + joined_segments(ps.drop_first(), (k - 1) as nat)
    }
}

/// One more segment goes at the end.
proof fn lemma_joined_step(ps: Seq<Seq<u8>>, k: nat)
    requires
        k < ps.len(),
    ensures
        joined_segments(ps, k + 1) == joined_segments(ps, k) + stream_segment(ps[k as int]),
    decreases k,
{
    if k == 0 {
        assert(joined_segments(ps.drop_first(), 0) =~= Seq::<u8>::empty());
        assert(joined_segments(ps, 0) =~= Seq::<u8>::empty());
        assert(joined_segments(ps, 1) =~= stream_segment(ps[0]));
    } else {
        lemma_joined_step(ps.drop_first(), (k - 1) as nat);
        assert(ps.drop_first()[k - 1] == ps[k as int]);
        assert(joined_segments(ps, k + 1) =~= joined_segments(ps, k) + stream_segment(ps[k as int]));
    }
}

/// When every stream but the last can be re-framed, the multistream packet
/// is their segments and then the last stream's packet.
proof fn lemma_join_ok(ps: Seq<Seq<u8>>)
    requires
        ps.len() >= 1,
        forall|s: int| 0 <= s < ps.len() - 1 ==> #[trigger] cat_check((0u8, Seq::empty()), ps[s], false) is Ok,
    ensures
        spec_join_streams(ps) == Ok::<Seq<u8>, &'static str>(
            joined_segments(ps, (ps.len() - 1) as nat) + ps.last(),
        ),
    decreases ps.len(),
{
    if ps.len() == 1 {
        assert(joined_segments(ps, 0) + ps.last() =~= ps[0]);
    } else {
        let rest = ps.drop_first();
        assert forall|s: int| 0 <= s < rest.len() - 1 implies #[trigger] cat_check((0u8, Seq::empty()), rest[s], false) is Ok by {
            assert(rest[s] == ps[s + 1]);
        }
        assert(cat_check((0u8, Seq::empty()), ps[0], false) is Ok);
        lemma_join_ok(rest);
        assert(rest.last() == ps.last());
        assert(stream_segment(ps[0]) + (joined_segments(rest, (rest.len() - 1) as nat) + rest.last())
            =~= joined_segments(ps, (ps.len() - 1) as nat) + ps.last());
    }
}

/// The first stream that cannot be re-framed gives the error.
proof fn lemma_join_err(ps: Seq<Seq<u8>>, k: int, e: &'static str)
    requires
        0 <= k < ps.len() - 1,
        forall|s: int| 0 <= s < k ==> #[trigger] cat_check((0u8, Seq::empty()), ps[s], false) is Ok,
        cat_check((0u8, Seq::empty()), ps[k], false) == Err::<(), &'static str>(e),
    ensures
        spec_join_streams(ps) == Err::<Seq<u8>, &'static str>(e),
    decreases k,
{
    if k > 0 {
        let rest = ps.drop_first();
        assert forall|s: int| 0 <= s < k - 1 implies #[trigger] cat_check((0u8, Seq::empty()), rest[s], false) is Ok by {
            assert(rest[s] == ps[s + 1]);
        }
        assert(rest[k - 1] == ps[k]);
        assert(cat_check((0u8, Seq::empty()), ps[0], false) is Ok);
        lemma_join_err(rest, k - 1, e);
    }
}

/// Joins the packets of a frame's streams into one multistream packet, as
/// the multistream encoder writes it: every stream but the last is
/// re-framed self-delimited, the last is appended as it is.
#[verifier::spinoff_prover]
#[verifier::rlimit(40)]
pub fn join_streams(packets: &Vec<Vec<u8>>) -> (r: Result<Vec<u8>, &'static str>)
    requires
        forall|i: int| 0 <= i < packets@.len() ==> (#[trigger] packets@[i])@.len() <= i32::MAX,
    ensures
        match r {
            Ok(v) => spec_join_streams(packet_views(packets@)) == Ok::<Seq<u8>, &'static str>(v@),
            Err(e) => spec_join_streams(packet_views(packets@)) == Err::<Seq<u8>, &'static str>(e),
        },
{
    let ghost ps = packet_views(packets@);
    let n = packets.len();
    let mut out: Vec<u8> = Vec::new();
    if n == 0 {
        assert(out@ =~= Seq::<u8>::empty());
        return Ok(out);
    }
    let mut k: usize = 0;
    while k < n - 1
        invariant
            n == packets@.len(),
            n >= 1,
            ps == packet_views(packets@),
            k <= n - 1,
            forall|i: int| 0 <= i < packets@.len() ==> (#[trigger] packets@[i])@.len() <= i32::MAX,
            forall|s: int| 0 <= s < k ==> #[trigger] cat_check((0u8, Seq::empty()), ps[s], false) is Ok,
            out@ == joined_segments(ps, k as nat),
        decreases n - 1 - k,
    {
        assert(ps[k as int] == packets@[k as int]@);
        let mut rp = Repacketizer::new();
        match rp.cat(packets[k].as_slice()) {
            Ok(()) => {},
            Err(e) => {
                proof {
                    lemma_join_err(ps, k as int, e);
                }
                return Err(e);
            },
        }
        proof {
            crate::framing::lemma_packet_frames_facts(packets@[k as int]@, false);
            assert(Seq::<Seq<u8>>::empty() + packet_frames(packets@[k as int]@, false).unwrap()
                =~= packet_frames(packets@[k as int]@, false).unwrap());
            lemma_joined_step(ps, k as nat);
            reveal(stream_segment);
        }
        let sd = match rp.out_self_delimited() {
            Ok(v) => v,
            Err(e) => {
                return Err(e);
            },
        };
        append_bytes(&mut out, sd.as_slice());
        k += 1;
    }
    assert(ps[k as int] == packets@[k as int]@);
    append_bytes(&mut out, packets[k].as_slice());
    proof {
        lemma_join_ok(ps);
    }
    Ok(out)
}

/// The segment a stream's packet is re-framed into reads back as one
/// self-delimited packet of exactly its length, whatever follows it.
proof fn lemma_segment_ends(p: Seq<u8>, rest: Seq<u8>)
    requires
        cat_check((0u8, Seq::empty()), p, false) is Ok,
    ensures
        parse_model(stream_segment(p) + rest, true) matches Some((hdr, sizes)) && hdr + seq_sum(sizes)
            == stream_segment(p).len(),
{
    reveal(stream_segment);
    let fs = packet_frames(p, false).unwrap();
    lemma_cat_keeps_hold((0u8, Seq::empty()), p, false);
    assert(Seq::<Seq<u8>>::empty() + fs =~= fs);
    lemma_packet_frames_facts(p, false);
    lemma_out_parse_roundtrip(p[0], fs, None, true, rest);
}

/// Splitting from `pos` bytes that hold the joined streams finds each
/// stream's bytes.
#[verifier::spinoff_prover]
#[verifier::rlimit(40)]
proof fn lemma_split_at(data: Seq<u8>, pos: int, ps: Seq<Seq<u8>>)
    requires
        ps.len() >= 1,
        forall|s: int| 0 <= s < ps.len() - 1 ==> #[trigger] cat_check((0u8, Seq::empty()), ps[s], false) is Ok,
        0 <= pos <= data.len(),
        spec_join_streams(ps) is Ok,
        data.subrange(pos, data.len() as int) == spec_join_streams(ps)->Ok_0,
    ensures
        ({
            let spans = spec_split_streams(data, pos, ps.len() as nat);
            &&& spans is Ok
            &&& spans->Ok_0.len() == ps.len()
            &&& forall|s: int|
                0 <= s < ps.len() ==> {
                    let (o, l) = #[trigger] spans->Ok_0[s];
                    &&& pos <= o <= o + l <= data.len()
                    &&& data.subrange(o, o + l) == (if s < ps.len() - 1 {
                        stream_segment(ps[s])
                    } else {
                        ps[s]
                    })
                }
        }),
    decreases ps.len(),
{
    if ps.len() > 1 {
        let rest = ps.drop_first();
        let seg = stream_segment(ps[0]);
        assert(cat_check((0u8, Seq::empty()), ps[0], false) is Ok);
        assert forall|s: int| 0 <= s < rest.len() - 1 implies #[trigger] cat_check((0u8, Seq::empty()), rest[s], false) is Ok by {
            assert(rest[s] == ps[s + 1]);
        }
        let joined_rest = spec_join_streams(rest)->Ok_0;
        lemma_segment_ends(ps[0], joined_rest);
        let tail = data.subrange(pos, data.len() as int);
        assert(tail =~= seg + joined_rest);
        let next = pos + seg.len();
        assert(tail.subrange(seg.len() as int, tail.len() as int) =~= joined_rest);
        assert(data.subrange(next, data.len() as int) =~= tail.subrange(seg.len() as int, tail.len() as int));
        lemma_split_at(data, next, rest);
        let spans = spec_split_streams(data, pos, ps.len() as nat);
        let rest_spans = spec_split_streams(data, next, rest.len() as nat)->Ok_0;
        assert(spans->Ok_0 == seq![(pos, seg.len() as int)] + rest_spans);
        assert forall|s: int| 0 <= s < ps.len() implies {
            let (o, l) = #[trigger] spans->Ok_0[s];
            &&& pos <= o <= o + l <= data.len()
            &&& data.subrange(o, o + l) == (if s < ps.len() - 1 {
                stream_segment(ps[s])
            } else {
                ps[s]
            })
        } by {
            if s == 0 {
                assert(data.subrange(pos, pos + seg.len()) =~= seg);
            } else {
                assert(spans->Ok_0[s] == rest_spans[s - 1]);
                assert(rest[s - 1] == ps[s]);
            }
        }
    } else {
        assert(data.subrange(pos, pos + (data.len() - pos)) =~= data.subrange(pos, data.len() as int));
    }
}

/// The law of multistream packets: splitting a packet joined from the
/// streams' packets finds each stream again, the self-delimited re-framing
/// of every stream but the last and the last stream's packet as it was.
/// Joining succeeds whenever every stream but the last can be re-framed.
pub proof fn lemma_split_join(ps: Seq<Seq<u8>>)
    requires
        ps.len() >= 1,
        forall|s: int| 0 <= s < ps.len() - 1 ==> #[trigger] cat_check((0u8, Seq::empty()), ps[s], false) is Ok,
    ensures
        spec_join_streams(ps) is Ok,
        ({
            let data = spec_join_streams(ps)->Ok_0;
            let spans = spec_split_streams(data, 0, ps.len() as nat);
            &&& spans is Ok
            &&& spans->Ok_0.len() == ps.len()
            &&& forall|s: int|
                0 <= s < ps.len() ==> {
                    let (o, l) = #[trigger] spans->Ok_0[s];
                    data.subrange(o, o + l) == (if s < ps.len() - 1 {
                        stream_segment(ps[s])
                    } else {
                        ps[s]
                    })
                }
        }),
{
    lemma_join_ok(ps);
    let data = spec_join_streams(ps)->Ok_0;
    assert(data.subrange(0, data.len() as int) =~= data);
    lemma_split_at(data, 0, ps);
}

} // verus!
