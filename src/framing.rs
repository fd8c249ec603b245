//! Framing on the reliable channel: each payload travels as its length, a
//! four-byte little-endian count, followed by exactly that many bytes. A
//! `FrameReader` takes the stream in chunks of any size and hands out each
//! payload as soon as it is complete.
use vstd::prelude::*;
use vstd::bytes::{spec_u32_from_le_bytes, lemma_auto_spec_u32_to_from_le_bytes, u32_from_le_bytes};
use vstd::slice::{slice_subrange, slice_to_vec};
use crate::codec::{put_u32, wire_u32};

verus! {

/// The frame that carries `payload`.
pub open spec fn frame_wire(payload: Seq<u8>) -> Seq<u8> {
    wire_u32(payload.len() as u32) + payload
}

/// The frames of `payloads`, one after another.
pub open spec fn stream_of(payloads: Seq<Seq<u8>>) -> Seq<u8>
    decreases payloads.len(),
{
    if payloads.len() == 0 {
        Seq::empty()
    } else {
        frame_wire(payloads[0]) + stream_of(payloads.drop_first())
    }
}

/// The length that the first four bytes of `b` announce.
pub open spec fn announced_len(b: Seq<u8>) -> int {
    spec_u32_from_le_bytes(b.take(4)) as int
}

/// `b` starts with a complete frame.
pub open spec fn has_frame(b: Seq<u8>) -> bool {
    b.len() >= 4 && b.len() - 4 >= announced_len(b)
}

/// The payloads of the complete frames at the front of `b`, and the bytes
/// after them, which hold no complete frame.
pub open spec fn split_frames(b: Seq<u8>) -> (Seq<Seq<u8>>, Seq<u8>)
    decreases b.len(),
{
    if has_frame(b) {
        let n = announced_len(b) as int;
        let rest = split_frames(b.skip(4 + n));
        (seq![b.subrange(4, 4 + n)] + rest.0, rest.1)
    } else {
        (Seq::empty(), b)
    }
}

/// The frame that carries `payload`.
pub fn frame(payload: &[u8]) -> (r: Vec<u8>)
    requires
        payload@.len() <= u32::MAX,
    ensures
        r@ == frame_wire(payload@),
{
    let mut out: Vec<u8> = Vec::new();
    put_u32(&mut out, payload.len() as u32);
    let mut body = slice_to_vec(payload);
    out.append(&mut body);
    assert(out@ =~= frame_wire(payload@));
    out
}

/// Collects the bytes of a stream and cuts them into frames.
pub struct FrameReader {
    pending: Vec<u8>,
}

impl FrameReader {
    /// The bytes received that do not yet form a complete frame.
    pub closed spec fn pending(&self) -> Seq<u8> {
        self.pending@
    }

    pub open spec fn wf(&self) -> bool {
        !has_frame(self.pending())
    }

    /// A reader that has received nothing.
    pub fn new() -> (r: FrameReader)
        ensures
            r.wf(),
            r.pending() == Seq::<u8>::empty(),
    {
        FrameReader { pending: Vec::new() }
    }

    /// Takes the next `chunk` of the stream and returns the payloads of the
    /// frames that it completes, in order.
    pub fn feed(&mut self, chunk: &[u8]) -> (frames: Vec<Vec<u8>>)
        requires
            old(self).wf(),
        ensures
            final(self).wf(),
            frames.deep_view() == split_frames(old(self).pending() + chunk@).0,
            final(self).pending() == split_frames(old(self).pending() + chunk@).1,
    {
        proof {
            lemma_auto_spec_u32_to_from_le_bytes();
        }
        let mut buf: Vec<u8> = Vec::new();
        buf.append(&mut self.pending);
        let mut more = slice_to_vec(chunk);
        buf.append(&mut more);
        let ghost all = buf@;
        assert(all =~= old(self).pending() + chunk@);
        let mut frames: Vec<Vec<u8>> = Vec::new();
        let mut pos: usize = 0;
        assert(all.skip(0) =~= all);
        assert(frames.deep_view() =~= Seq::<Seq<u8>>::empty());
        loop
            invariant
                buf@ == all,
                pos <= buf@.len(),
                split_frames(all).0 == frames.deep_view() + split_frames(all.skip(pos as int)).0,
                split_frames(all).1 == split_frames(all.skip(pos as int)).1,
            ensures
                buf@ == all,
                pos <= buf@.len(),
                split_frames(all).0 == frames.deep_view() + split_frames(all.skip(pos as int)).0,
                split_frames(all).1 == split_frames(all.skip(pos as int)).1,
                !has_frame(all.skip(pos as int)),
            decreases buf@.len() - pos,
        {
            let ghost rest = all.skip(pos as int);
            if buf.len() - pos < 4 {
                break;
            }
            let n = u32_from_le_bytes(slice_subrange(buf.as_slice(), pos, pos + 4));
            assert(rest.take(4) =~= all.subrange(pos as int, pos + 4));
            if (buf.len() - pos - 4) < n as usize {
                break;
            }
            let end = pos + 4 + n as usize;
            let payload = slice_to_vec(slice_subrange(buf.as_slice(), pos + 4, end));
            proof {
                assert(has_frame(rest));
                assert(rest.subrange(4, 4 + n) =~= payload@);
                assert(rest.skip(4 + n) =~= all.skip(end as int));
                assert(split_frames(rest).0 == seq![payload@] + split_frames(all.skip(end as int)).0);
            }
            let ghost before = frames.deep_view();
            assert(payload.deep_view() =~= payload@);
            frames.push(payload);
            assert(frames.deep_view() =~= before.push(payload@));
            assert(frames.deep_view() + split_frames(all.skip(end as int)).0 =~= before + (seq![payload@]
                + split_frames(all.skip(end as int)).0));
            pos = end;
        }
        let tail = slice_to_vec(slice_subrange(buf.as_slice(), pos, buf.len()));
        proof {
            let rest = all.skip(pos as int);
            assert(tail@ =~= rest);
            assert(!has_frame(rest));
            assert(split_frames(rest).0 =~= Seq::<Seq<u8>>::empty());
            assert(frames.deep_view() + Seq::<Seq<u8>>::empty() =~= frames.deep_view());
        }
        self.pending = tail;
        frames
    }
}

/// The bytes of `chunks`, one after another.
pub open spec fn concat_chunks(chunks: Seq<Seq<u8>>) -> Seq<u8>
    decreases chunks.len(),
{
    if chunks.len() == 0 {
        Seq::empty()
    } else {
        chunks[0] + concat_chunks(chunks.drop_first())
    }
}

/// What a reader holding `pending` hands out when fed `chunks` one by one,
/// as `FrameReader::feed` states it: all the payloads, in order, and the
/// bytes it holds at the end.
pub open spec fn feed_all(pending: Seq<u8>, chunks: Seq<Seq<u8>>) -> (Seq<Seq<u8>>, Seq<u8>)
    decreases chunks.len(),
{
    if chunks.len() == 0 {
        (Seq::empty(), pending)
    } else {
        let first = split_frames(pending + chunks[0]);
        let rest = feed_all(first.1, chunks.drop_first());
        (first.0 + rest.0, rest.1)
    }
}

pub proof fn lemma_split_leaves_no_frame(b: Seq<u8>)
    ensures
        !has_frame(split_frames(b).1),
    decreases b.len(),
{
    if has_frame(b) {
        lemma_split_leaves_no_frame(b.skip(4 + announced_len(b)));
    }
}

pub proof fn lemma_split_append(x: Seq<u8>, y: Seq<u8>)
    ensures
        split_frames(x + y) == (split_frames(x).0 + split_frames(split_frames(x).1 + y).0, split_frames(
            split_frames(x).1 + y,
        ).1),
    decreases x.len(),
{
    if has_frame(x) {
        let n = announced_len(x);
        assert((x + y).take(4) =~= x.take(4));
        assert((x + y).skip(4 + n) =~= x.skip(4 + n) + y);
        assert((x + y).subrange(4, 4 + n) =~= x.subrange(4, 4 + n));
        lemma_split_append(x.skip(4 + n), y);
        let o = split_frames(x.skip(4 + n));
        assert(seq![x.subrange(4, 4 + n)] + (o.0 + split_frames(o.1 + y).0) =~= (seq![x.subrange(4, 4 + n)]
            + o.0) + split_frames(o.1 + y).0);
    } else {
        assert(Seq::<Seq<u8>>::empty() + split_frames(x + y).0 =~= split_frames(x + y).0);
    }
}

pub proof fn lemma_feed_all(pending: Seq<u8>, chunks: Seq<Seq<u8>>)
    requires
        !has_frame(pending),
    ensures
        feed_all(pending, chunks) == split_frames(pending + concat_chunks(chunks)),
    decreases chunks.len(),
{
    if chunks.len() == 0 {
        assert(pending + concat_chunks(chunks) =~= pending);
    } else {
        let first = split_frames(pending + chunks[0]);
        lemma_split_leaves_no_frame(pending + chunks[0]);
        lemma_feed_all(first.1, chunks.drop_first());
        lemma_split_append(pending + chunks[0], concat_chunks(chunks.drop_first()));
        assert(pending + concat_chunks(chunks) =~= (pending + chunks[0]) + concat_chunks(
            chunks.drop_first(),
        ));
    }
}

pub proof fn lemma_split_stream(payloads: Seq<Seq<u8>>)
    requires
        forall|i: int| 0 <= i < payloads.len() ==> #[trigger] payloads[i].len() <= u32::MAX,
    ensures
        split_frames(stream_of(payloads)) == (payloads, Seq::<u8>::empty()),
    decreases payloads.len(),
{
    lemma_auto_spec_u32_to_from_le_bytes();
    if payloads.len() == 0 {
        assert(split_frames(stream_of(payloads)).0 =~= payloads);
    } else {
        let p = payloads[0];
        let rest = payloads.drop_first();
        let b = stream_of(payloads);
        assert(payloads[0].len() <= u32::MAX);
        assert(b.take(4) =~= wire_u32(p.len() as u32));
        assert(announced_len(b) == p.len());
        assert(b.skip(4 + p.len() as int) =~= stream_of(rest));
        assert(b.subrange(4, 4 + p.len() as int) =~= p);
        assert forall|i: int| 0 <= i < rest.len() implies #[trigger] rest[i].len() <= u32::MAX by {
            assert(rest[i] == payloads[i + 1]);
        }
        lemma_split_stream(rest);
        assert(seq![p] + rest =~= payloads);
    }
}

/// However a stream of frames is cut into chunks, a fresh reader fed those
/// chunks hands out exactly the payloads of the frames, in order, and holds
/// nothing afterwards.
pub proof fn lemma_framing(payloads: Seq<Seq<u8>>, chunks: Seq<Seq<u8>>)
    requires
        forall|i: int| 0 <= i < payloads.len() ==> #[trigger] payloads[i].len() <= u32::MAX,
        concat_chunks(chunks) == stream_of(payloads),
    ensures
        feed_all(Seq::empty(), chunks) == (payloads, Seq::<u8>::empty()),
{
    lemma_feed_all(Seq::empty(), chunks);
    assert(Seq::<u8>::empty() + concat_chunks(chunks) =~= stream_of(payloads));
    lemma_split_stream(payloads);
}

} // verus!
