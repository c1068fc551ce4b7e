//! Durable log store: an append-only, block-oriented FIFO of serialized
//! frames over a single backing file.
//!
//! Writes accumulate in `in_buffer` and flush to the file one whole block at
//! a time. Reads take one block per call starting at the read cursor,
//! prepend the undecoded leftover of the previous read (`out_buffer`), add
//! the not-yet-flushed tail once the last block is reached, and decode as
//! many complete frames as possible; undecodable trailing bytes wait in
//! `out_buffer` for the next call. When a read consumes the final block the
//! file is truncated to empty (log compaction), so drained bytes are never
//! replayed. The backing file itself stands for the medium: a caller opens a
//! store over the file bytes read from storage and can take them back out to
//! persist them; a fresh store over the same bytes models a restart.

use vstd::prelude::*;

use crate::codec::concat_encodings;
use crate::codec::deserialize_many;
use crate::codec::encoding;
use crate::codec::lemma_malformed_persists;
use crate::codec::lemma_parse_chunked;
use crate::codec::lemma_parse_concat;
use crate::codec::lemma_parse_consumed;
use crate::codec::lemma_parse_frames_valid;
use crate::codec::lemma_parse_rest_residue;
use crate::codec::parse;
use crate::codec::views_of;
use crate::codec::CodecError;
use crate::frame::Frame;
use crate::frame::FrameView;

verus! {

/// Bytes per storage block: writes and reads move whole blocks of this size.
pub const BLOCK_SIZE: usize = 512;

/// Mathematical state of a log store: the backing file bytes, the read
/// cursor into them, and the two byte accumulators.
pub struct LogStoreView {
    pub file: Seq<u8>,
    pub cursor: int,
    pub in_buffer: Seq<u8>,
    pub out_buffer: Seq<u8>,
}

impl LogStoreView {
    /// Structural invariant: the file holds whole blocks, the cursor sits on
    /// a block boundary strictly inside the file (or at zero when the file
    /// is empty), and the write accumulator holds less than one block.
    pub open spec fn wf(self) -> bool {
        &&& 0 <= self.cursor <= self.file.len()
        &&& (self.file.len() as int) % (BLOCK_SIZE as int) == 0
        &&& self.cursor % (BLOCK_SIZE as int) == 0
        &&& (self.cursor == self.file.len() ==> self.file.len() == 0)
        &&& self.in_buffer.len() < BLOCK_SIZE
    }

    /// The undrained byte stream the store holds, oldest first: leftover
    /// read bytes, then the unread part of the file, then unflushed writes.
    pub open spec fn contents(self) -> Seq<u8> {
        self.out_buffer + self.file.skip(self.cursor) + self.in_buffer
    }

    /// The block the next read takes from the file (empty when the file is).
    pub open spec fn read_block(self) -> Seq<u8> {
        if self.cursor < self.file.len() {
            self.file.subrange(self.cursor, self.cursor + BLOCK_SIZE)
        } else {
            Seq::empty()
        }
    }

    /// Whether the next read reaches the end of the file.
    pub open spec fn read_last(self) -> bool {
        self.cursor + self.read_block().len() == self.file.len()
    }

    /// The bytes the next read hands to the decoder: previous leftover, one
    /// block, and — once the last block is reached — the unflushed writes.
    pub open spec fn read_input(self) -> Seq<u8> {
        self.out_buffer + self.read_block() + if self.read_last() {
            self.in_buffer
        } else {
            Seq::empty()
        }
    }

    /// The frames the next read returns (when the input decodes cleanly).
    pub open spec fn read_frames(self) -> Seq<FrameView> {
        parse(self.read_input()).frames
    }

    /// The store state after a clean read: the undecoded remainder becomes
    /// the new leftover, and reaching the end of the file truncates it.
    pub open spec fn read_post(self) -> LogStoreView {
        let rest = parse(self.read_input()).rest;
        if self.read_last() {
            LogStoreView {
                file: Seq::empty(),
                cursor: 0,
                in_buffer: Seq::empty(),
                out_buffer: rest,
            }
        } else {
            LogStoreView {
                file: self.file,
                cursor: self.cursor + BLOCK_SIZE,
                in_buffer: self.in_buffer,
                out_buffer: rest,
            }
        }
    }
}

/// Frames accumulated by `k` consecutive clean reads.
pub open spec fn drain_frames(m: LogStoreView, k: nat) -> Seq<FrameView>
    decreases k,
{
    if k == 0 {
        Seq::empty()
    } else {
        m.read_frames() + drain_frames(m.read_post(), (k - 1) as nat)
    }
}

/// Store state after `k` consecutive clean reads.
pub open spec fn drain_post(m: LogStoreView, k: nat) -> LogStoreView
    decreases k,
{
    if k == 0 {
        m
    } else {
        drain_post(m.read_post(), (k - 1) as nat)
    }
}

/// Append-only block log of serialized frames; see the module description.
pub struct LogStore {
    file: Vec<u8>,
    cursor: usize,
    in_buffer: Vec<u8>,
    out_buffer: Vec<u8>,
}

impl View for LogStore {
    type V = LogStoreView;

    closed spec fn view(&self) -> LogStoreView {
        LogStoreView {
            file: self.file@,
            cursor: self.cursor as int,
            in_buffer: self.in_buffer@,
            out_buffer: self.out_buffer@,
        }
    }
}

/// Copies the bytes of `buf` from `pos` on into a fresh vector.
fn copy_from(buf: &Vec<u8>, pos: usize) -> (r: Vec<u8>)
    requires
        pos <= buf.len(),
    ensures
        r@ =~= buf@.skip(pos as int),
{
    let mut r: Vec<u8> = Vec::new();
    let mut k: usize = pos;
    while k < buf.len()
        invariant
            pos <= k <= buf.len(),
            r@ =~= buf@.subrange(pos as int, k as int),
        decreases buf.len() - k,
    {
        r.push(buf[k]);
        proof {
            assert(buf@.subrange(pos as int, k + 1) =~= buf@.subrange(pos as int, k as int).push(
                buf@[k as int],
            ));
        }
        k = k + 1;
    }
    r
}

impl LogStore {
    /// Opens a store over the bytes of a backing file (whole blocks, as this
    /// store's own writes leave it). A store opened over the file bytes a
    /// previous instance flushed holds exactly those bytes as its contents:
    /// this is the restart path.
    pub fn open(file: Vec<u8>) -> (r: LogStore)
        requires
            (file@.len() as int) % (BLOCK_SIZE as int) == 0,
        ensures
            r@.wf(),
            r@.file == file@,
            r@.cursor == 0,
            r@.in_buffer =~= Seq::<u8>::empty(),
            r@.out_buffer =~= Seq::<u8>::empty(),
            r@.contents() =~= file@,
    {
        let r = LogStore { file, cursor: 0, in_buffer: Vec::new(), out_buffer: Vec::new() };
        proof {
            assert(r@.file.skip(0) =~= r@.file);
        }
        r
    }

    /// The backing file bytes: what survives a power loss. A caller
    /// persisting the log hands these to the medium; `open` over them
    /// reconstructs the store minus any unflushed or already-read bytes.
    pub fn persisted(&self) -> (r: &Vec<u8>)
        ensures
            r@ == self@.file,
    {
        &self.file
    }

    /// Number of undrained bytes the store holds.
    pub fn pending_len(&self) -> (r: usize)
        requires
            self@.wf(),
            self@.contents().len() <= usize::MAX,
        ensures
            r == self@.contents().len(),
    {
        self.out_buffer.len() + (self.file.len() - self.cursor) + self.in_buffer.len()
    }

    /// Serializes `frame` and appends it to the log. Bytes gather in the
    /// write accumulator; each time it holds at least one block, one whole
    /// block is flushed to the end of the file. The store's contents grow by
    /// exactly the frame's encoding; the file grows append-only by whole
    /// blocks.
    pub fn write(&mut self, frame: &Frame)
        requires
            old(self)@.wf(),
            frame@.valid(),
        ensures
            final (self)@.wf(),
            final (self)@.contents() =~= old(self)@.contents() + encoding(frame@),
            final (self)@.out_buffer == old(self)@.out_buffer,
            final (self)@.cursor == old(self)@.cursor,
            final (self)@.file.len() >= old(self)@.file.len(),
            final (self)@.file.take(old(self)@.file.len() as int) =~= old(self)@.file,
            final (self)@.file.len() + final (self)@.in_buffer.len() == old(self)@.file.len()
                + old(self)@.in_buffer.len() + encoding(frame@).len(),
    {
        let ghost m = self@;
        let ghost pending = old(self)@.in_buffer + encoding(frame@);
        let mut enc = frame.serialize();
        self.in_buffer.append(&mut enc);
        proof {
            assert(self@.in_buffer =~= pending);
        }
        while self.in_buffer.len() >= BLOCK_SIZE
            invariant
                self@.file.len() >= m.file.len(),
                (self@.file.len() - m.file.len()) % (BLOCK_SIZE as int) == 0,
                self@.file =~= m.file + pending.take(self@.file.len() - m.file.len()),
                self@.in_buffer =~= pending.skip(self@.file.len() - m.file.len()),
                self@.cursor == m.cursor,
                self@.out_buffer == m.out_buffer,
                self@.file.len() + self@.in_buffer.len() == m.file.len() + pending.len(),
            decreases self.in_buffer.len(),
        {
            let ghost flushed_before = self@.file.len() - m.file.len();
            let mut i: usize = 0;
            while i < BLOCK_SIZE
                invariant
                    i <= BLOCK_SIZE,
                    BLOCK_SIZE <= self@.in_buffer.len(),
                    self@.file =~= m.file + pending.take(flushed_before) + self@.in_buffer.take(
                        i as int,
                    ),
                    self@.in_buffer =~= pending.skip(flushed_before),
                    self@.cursor == m.cursor,
                    self@.out_buffer == m.out_buffer,
                    self@.file.len() == m.file.len() + flushed_before + i,
                decreases BLOCK_SIZE - i,
            {
                let b = self.in_buffer[i];
                self.file.push(b);
                i = i + 1;
            }
            let rest = copy_from(&self.in_buffer, BLOCK_SIZE);
            self.in_buffer = rest;
            proof {
                let flushed = self@.file.len() - m.file.len();
                assert(flushed == flushed_before + BLOCK_SIZE);
                assert(pending.take(flushed) =~= pending.take(flushed_before) + pending.skip(
                    flushed_before,
                ).take(BLOCK_SIZE as int));
                assert(self@.file =~= m.file + pending.take(flushed));
                assert(self@.in_buffer =~= pending.skip(flushed_before).skip(BLOCK_SIZE as int));
                assert(pending.skip(flushed_before).skip(BLOCK_SIZE as int) =~= pending.skip(
                    flushed,
                ));
            }
        }
        proof {
            let flushed = self@.file.len() - m.file.len();
            assert(self@.file.skip(m.cursor) =~= m.file.skip(m.cursor) + pending.take(flushed));
            assert(self@.contents() =~= m.out_buffer + m.file.skip(m.cursor) + pending.take(
                flushed,
            ) + pending.skip(flushed));
            assert(pending.take(flushed) + pending.skip(flushed) =~= pending);
            assert(self@.contents() =~= m.contents() + encoding(frame@));
            assert(self@.file.take(m.file.len() as int) =~= m.file);
        }
    }

    /// Reads one block's worth of the log: takes the next block from the
    /// file (none if the file is empty), prepends the leftover of the
    /// previous read, adds the unflushed writes when this read reaches the
    /// end of the file, and decodes every complete frame. Reaching the end
    /// of a non-empty file truncates it (compaction): drained bytes are
    /// never replayed. Undecodable bytes at the front leave the store
    /// untouched and report `Malformed`; the caller treats the instance as
    /// failed.
    pub fn read(&mut self) -> (r: Result<Vec<Frame>, CodecError>)
        requires
            old(self)@.wf(),
        ensures
            ({
                let m = old(self)@;
                let p = parse(m.read_input());
                &&& !p.malformed ==> {
                    &&& r is Ok
                    &&& views_of(r->Ok_0@) =~= m.read_frames()
                    &&& final (self)@ == m.read_post()
                    &&& final (self)@.wf()
                    &&& m.contents() =~= concat_encodings(m.read_frames())
                        + final (self)@.contents()
                    &&& forall|i: int|
                        0 <= i < r->Ok_0@.len() ==> (#[trigger] r->Ok_0@[i])@.valid()
                }
                &&& p.malformed ==> r == Err::<Vec<Frame>, CodecError>(CodecError::Malformed)
                    && final (self)@ == m
            }),
    {
        let ghost m = self@;
        let start = self.cursor;
        let mut input = copy_from(&self.out_buffer, 0);
        proof {
            assert(input@ =~= m.out_buffer);
        }
        let has_block = start < self.file.len();
        if has_block {
            let mut i: usize = 0;
            while i < BLOCK_SIZE
                invariant
                    i <= BLOCK_SIZE,
                    m == self@,
                    m.wf(),
                    start == m.cursor < m.file.len(),
                    start + BLOCK_SIZE <= m.file.len(),
                    input@ =~= m.out_buffer + m.file.subrange(start as int, start + i),
                decreases BLOCK_SIZE - i,
            {
                let b = self.file[start + i];
                input.push(b);
                proof {
                    assert(m.file.subrange(start as int, start + i + 1) =~= m.file.subrange(
                        start as int,
                        start + i,
                    ).push(m.file[start + i]));
                }
                i = i + 1;
            }
        }
        proof {
            assert(input@ =~= m.out_buffer + m.read_block());
        }
        let new_cursor = if has_block {
            start + BLOCK_SIZE
        } else {
            start
        };
        let last = new_cursor == self.file.len();
        proof {
            assert(last == m.read_last());
        }
        if last {
            let mut tail = copy_from(&self.in_buffer, 0);
            input.append(&mut tail);
        }
        proof {
            assert(input@ =~= m.read_input());
        }
        match deserialize_many(&mut input) {
            Ok(frames) => {
                self.out_buffer = input;
                if last {
                    self.in_buffer = Vec::new();
                    self.file = Vec::new();
                    self.cursor = 0;
                } else {
                    self.cursor = new_cursor;
                }
                proof {
                    let p = parse(m.read_input());
                    lemma_parse_frames_valid(m.read_input());
                    lemma_parse_consumed(m.read_input());
                    assert(self@ == m.read_post());
                    if m.read_last() {
                        assert(m.file.skip(m.cursor) =~= m.read_block());
                        assert(m.contents() =~= m.read_input());
                        assert(self@.contents() =~= p.rest);
                    } else {
                        assert(m.file.skip(m.cursor) =~= m.read_block() + m.file.skip(
                            m.cursor + BLOCK_SIZE,
                        ));
                        assert(m.read_input() =~= m.out_buffer + m.read_block());
                        assert(self@.contents() =~= p.rest + m.file.skip(m.cursor + BLOCK_SIZE)
                            + m.in_buffer);
                        assert(m.contents() =~= m.read_input() + m.file.skip(
                            m.cursor + BLOCK_SIZE,
                        ) + m.in_buffer);
                    }
                    assert(m.contents() =~= concat_encodings(m.read_frames()) + self@.contents());
                    assert forall|i: int| 0 <= i < frames@.len() implies (
                    #[trigger] frames@[i])@.valid() by {
                        assert(frames@[i]@ == views_of(frames@)[i]);
                        assert(views_of(frames@)[i] == parse(m.read_input()).frames[i]);
                    }
                }
                Ok(frames)
            },
            Err(e) => {
                proof {
                    assert(self@ == m);
                }
                Err(e)
            },
        }
    }
}

/// A backing file shorter than one block is necessarily empty, and reading
/// such a store decodes exactly its contents: nothing previously drained
/// can come back.
pub proof fn lemma_read_input_unflushed(m: LogStoreView)
    requires
        m.wf(),
        m.file.len() < BLOCK_SIZE,
    ensures
        m.file.len() == 0,
        m.read_input() =~= m.contents(),
{
    vstd::arithmetic::div_mod::lemma_small_mod(m.file.len(), BLOCK_SIZE as nat);
}

/// Log compaction never replays drained data: once a store's contents are
/// fully drained its backing file is empty, and the bytes a subsequent
/// write appends decode to exactly the newly written frame — never to
/// previously drained bytes.
pub proof fn lemma_compaction_no_replay(m: LogStoreView, f: FrameView)
    requires
        m.wf(),
        m.contents().len() == 0,
        f.valid(),
    ensures
        m.file.len() == 0,
        parse(m.contents() + encoding(f)).frames =~= seq![f],
        parse(m.contents() + encoding(f)).rest =~= Seq::<u8>::empty(),
        !parse(m.contents() + encoding(f)).malformed,
{
    assert(m.file.skip(m.cursor).len() == 0);
    assert(m.cursor == m.file.len());
    assert(m.file.len() == 0);
    assert(forall|i: int| 0 <= i < seq![f].len() ==> #[trigger] seq![f][i].valid());
    lemma_parse_concat(seq![f]);
    assert(seq![f].drop_first() =~= Seq::<FrameView>::empty());
    assert(concat_encodings(Seq::<FrameView>::empty()) =~= Seq::<u8>::empty());
    assert(concat_encodings(seq![f]) == encoding(seq![f][0]) + concat_encodings(
        seq![f].drop_first(),
    ));
    assert(concat_encodings(seq![f]) =~= encoding(f));
    assert(m.contents() + encoding(f) =~= encoding(f));
}

/// One step of the drain induction: a store holding `n` unread blocks, no
/// unflushed writes, and a saturated read leftover is fully drained by
/// `n + 1` reads, which together return exactly the frames its contents
/// decode to, leave the undecodable remainder in memory, and leave the
/// backing file empty.
proof fn lemma_drain_loop(m: LogStoreView, n: nat)
    requires
        m.wf(),
        m.in_buffer.len() == 0,
        m.file.len() - m.cursor == BLOCK_SIZE * n,
        parse(m.out_buffer).frames.len() == 0,
        parse(m.out_buffer).rest == m.out_buffer,
        !parse(m.contents()).malformed,
    ensures
        drain_frames(m, (n + 1) as nat) =~= parse(m.contents()).frames,
        drain_post(m, (n + 1) as nat).contents() =~= parse(m.contents()).rest,
        drain_post(m, (n + 1) as nat).file.len() == 0,
    decreases n,
{
    assert(m.in_buffer =~= Seq::<u8>::empty());
    if n == 0 {
        assert(m.cursor == m.file.len());
        assert(m.file.len() == 0);
        assert(m.read_block() =~= Seq::<u8>::empty());
        assert(m.read_last());
        assert(m.read_input() =~= m.out_buffer);
        assert(m.contents() =~= m.out_buffer);
        assert(m.read_frames() =~= parse(m.contents()).frames);
        let post = m.read_post();
        assert(drain_frames(m, 1) =~= m.read_frames() + drain_frames(post, 0));
        assert(drain_frames(post, 0) =~= Seq::<FrameView>::empty());
        assert(drain_post(m, 1) == drain_post(post, 0));
        assert(drain_post(post, 0) == post);
        assert(post.contents() =~= parse(m.read_input()).rest);
    } else {
        assert(m.cursor < m.file.len());
        assert(m.read_block() == m.file.subrange(m.cursor, m.cursor + BLOCK_SIZE));
        let a = m.read_input();
        let b = m.file.skip(m.cursor + BLOCK_SIZE);
        assert(a =~= m.out_buffer + m.read_block()) by {
            if m.read_last() {
                assert(a == m.out_buffer + m.read_block() + m.in_buffer);
            }
        }
        assert(m.contents() =~= a + b) by {
            assert(m.file.skip(m.cursor) =~= m.read_block() + b);
        }
        if parse(a).malformed {
            lemma_malformed_persists(a, b);
            assert(false);
        }
        lemma_parse_chunked(a, b);
        let post = m.read_post();
        assert(post.contents() =~= parse(a).rest + b) by {
            if m.read_last() {
                assert(m.cursor + BLOCK_SIZE == m.file.len());
                assert(b =~= Seq::<u8>::empty());
                assert(post.contents() =~= parse(a).rest);
            } else {
                assert(post.contents() == parse(a).rest + m.file.skip(m.cursor + BLOCK_SIZE)
                    + m.in_buffer);
            }
        }
        assert(post.wf()) by {
            if !m.read_last() {
                assert(m.cursor + BLOCK_SIZE < m.file.len());
            }
        }
        lemma_parse_rest_residue(a);
        assert(!parse(post.contents()).malformed);
        assert(post.file.len() - post.cursor == BLOCK_SIZE * (n - 1)) by {
            if m.read_last() {
                assert(m.file.len() - m.cursor == BLOCK_SIZE);
                assert(n == 1) by (nonlinear_arith)
                    requires
                        BLOCK_SIZE * n == BLOCK_SIZE && n >= 1,
                ;
            } else {
                assert(BLOCK_SIZE * n - BLOCK_SIZE == BLOCK_SIZE * (n - 1)) by (nonlinear_arith);
            }
        }
        lemma_drain_loop(post, (n - 1) as nat);
        assert(drain_frames(m, (n + 1) as nat) =~= m.read_frames() + drain_frames(post, n));
        assert(drain_frames(post, n) =~= parse(post.contents()).frames);
        assert(parse(m.contents()).frames =~= parse(a).frames + parse(parse(a).rest + b).frames);
        assert(parse(parse(a).rest + b).frames =~= parse(post.contents()).frames);
        assert(drain_post(m, (n + 1) as nat) == drain_post(post, n));
    }
}

/// Log durability: a store opened over a backing file holding the flushed
/// encodings of frames `fs` — the state after writing `fs` and restarting —
/// returns exactly `fs`, in order, once, when drained by repeated reads,
/// and ends with an empty file and no leftover bytes. No frame is lost, no
/// frame is duplicated.
pub proof fn lemma_log_durability(fs: Seq<FrameView>, n: nat)
    requires
        forall|i: int| 0 <= i < fs.len() ==> #[trigger] fs[i].valid(),
        concat_encodings(fs).len() == BLOCK_SIZE * n,
    ensures
        ({
            let m = LogStoreView {
                file: concat_encodings(fs),
                cursor: 0,
                in_buffer: Seq::empty(),
                out_buffer: Seq::empty(),
            };
            &&& m.wf()
            &&& drain_frames(m, (n + 1) as nat) =~= fs
            &&& drain_post(m, (n + 1) as nat).contents() =~= Seq::<u8>::empty()
            &&& drain_post(m, (n + 1) as nat).file.len() == 0
        }),
{
    let file = concat_encodings(fs);
    let m = LogStoreView {
        file,
        cursor: 0,
        in_buffer: Seq::empty(),
        out_buffer: Seq::empty(),
    };
    assert(m.wf()) by {
        broadcast use vstd::arithmetic::div_mod::lemma_mod_multiples_basic;

        assert(file.len() == (n as int) * (BLOCK_SIZE as int));
        assert(((n as int) * (BLOCK_SIZE as int)) % (BLOCK_SIZE as int) == 0);
    }
    lemma_parse_concat(fs);
    assert(m.contents() =~= file);
    lemma_drain_loop(m, n);
}

} // verus!
