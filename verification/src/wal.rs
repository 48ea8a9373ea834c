use crate::strutil::pad_min9;
use crate::strutil::string_push_char;
use crate::strutil::u32_pad_min9;
use vstd::prelude::*;

verus! {

/// How a WAL segment reaches its file: buffered file I/O or a memory
/// mapping. The choice belongs to the surrounding program; the framing below
/// is the same either way.
#[derive(Clone, Copy, Debug, PartialEq, Eq, Structural)]
pub enum IOType {
    FILEIO,
    MMAP,
}

/// Write-ahead-log options: where segments live, their size, their file
/// extension, the sync policy (synchronous fsync against buffered, with a
/// byte and time budget), and the I/O backend.
pub struct Options {
    pub dir_path: String,
    pub segment_size: i64,
    pub segment_file_ext: String,
    pub sync: bool,
    pub bytes_per_sync: u32,
    pub sync_interval_ms: u64,
    pub is_segmented: bool,
    pub io_type: IOType,
}

/// How one chunk of a record relates to the record: the whole record in one
/// block, or the first, a middle, or the last piece of a record that spans
/// blocks. The tag is what a reopening scan reads to discard a crash-torn
/// trailing First/Middle sequence without a Last.
#[derive(Clone, Copy, Debug, PartialEq, Eq, Structural)]
pub enum ChunkType {
    Full,
    First,
    Middle,
    Last,
}

/// Fixed log block size: 32 KiB.
pub const BLOCK_SIZE: usize = 32768;

/// Chunk header size: one tag byte and a two-byte little-endian length.
pub const CHUNK_HEADER: usize = 3;

pub open spec fn tag_of(t: ChunkType) -> u8 {
    match t {
        ChunkType::Full => 0,
        ChunkType::First => 1,
        ChunkType::Middle => 2,
        ChunkType::Last => 3,
    }
}

/// The tag byte of a chunk type.
pub fn chunk_tag(t: ChunkType) -> (b: u8)
    ensures
        b == tag_of(t),
{
    match t {
        ChunkType::Full => 0,
        ChunkType::First => 1,
        ChunkType::Middle => 2,
        ChunkType::Last => 3,
    }
}

/// Zero padding laid down when a block's tail cannot hold a chunk header.
pub open spec fn zeros(n: nat) -> Seq<u8> {
    Seq::new(n, |i: int| 0u8)
}

/// One chunk: tag, little-endian payload length, payload.
pub open spec fn enc_chunk(tag: u8, data: Seq<u8>) -> Seq<u8> {
    seq![tag, (data.len() % 256) as u8, ((data.len() / 256) % 256) as u8] + data
}

/// The bytes of one record's chunks written at `pos`, where `first` says
/// whether the record's first chunk is still to come. Each chunk's payload
/// fills what is left of its block; every following chunk starts a fresh
/// block.
pub open spec fn enc_chunks(rec: Seq<u8>, pos: nat, first: bool) -> Seq<u8>
    decreases rec.len(),
{
    let space = (BLOCK_SIZE - pos % (BLOCK_SIZE as nat)) as nat;
    if rec.len() + CHUNK_HEADER <= space {
        enc_chunk(
            tag_of(
                if first {
                    ChunkType::Full
                } else {
                    ChunkType::Last
                },
            ),
            rec,
        )
    } else {
        let take = (space - CHUNK_HEADER) as nat;
        if take == 0 || take >= rec.len() {
            Seq::empty()
        } else {
            enc_chunk(
                tag_of(
                    if first {
                        ChunkType::First
                    } else {
                        ChunkType::Middle
                    },
                ),
                rec.take(take as int),
            ) + enc_chunks(rec.skip(take as int), 0, false)
        }
    }
}

/// The bytes appended for one whole record written when the log holds `pos`
/// bytes: zero padding to the next block where the block's tail cannot hold
/// a header, then the record's chunks.
pub open spec fn enc_record(rec: Seq<u8>, pos: nat) -> Seq<u8> {
    let space = (BLOCK_SIZE - pos % (BLOCK_SIZE as nat)) as nat;
    if space < CHUNK_HEADER + 1 {
        zeros(space) + enc_chunks(rec, 0, true)
    } else {
        enc_chunks(rec, pos, true)
    }
}

/// A whole log as bytes: each record encoded at the position the previous
/// records reached.
pub open spec fn wal_encode(records: Seq<Seq<u8>>) -> Seq<u8>
    decreases records.len(),
{
    if records.len() == 0 {
        Seq::empty()
    } else {
        let pre = wal_encode(records.drop_last());
        pre + enc_record(records.last(), pre.len())
    }
}

/// One append-only WAL segment: an id, its framed bytes, and (as ghost
/// state) the records they hold. Every insert is appended here before it is
/// applied to the in-memory index; the surrounding program moves the bytes
/// to a file or mapping.
pub struct Segment {
    pub id: u32,
    pub buf: Vec<u8>,
    pub records: Ghost<Seq<Seq<u8>>>,
}

impl Segment {
    /// The framing invariant: the buffer is exactly the encoding of the
    /// records.
    pub open spec fn wf(self) -> bool {
        self.buf@ == wal_encode(self.records@)
    }

    /// A fresh, empty segment. The surrounding program creates the backing
    /// file (`FILEIO`) or mapping (`MMAP`) under the name
    /// `segment_file_name` gives.
    pub fn open(io_type: IOType, id: u32) -> (s: Segment)
        ensures
            s.wf(),
            s.id == id,
            s.records@ == Seq::<Seq<u8>>::empty(),
            s.buf@ == Seq::<u8>::empty(),
    {
        let _ = io_type;
        let s = Segment { id, buf: Vec::new(), records: Ghost(Seq::empty()) };
        proof {
            assert(wal_encode(Seq::<Seq<u8>>::empty()) =~= Seq::<u8>::empty());
        }
        s
    }

    /// Appends the chunks of `data` from `off` on.
    #[verifier::loop_isolation(false)]
    #[verifier::rlimit(50)]
    fn write_chunks(&mut self, data: &[u8], off: usize, first: bool)
        requires
            off < data@.len(),
            BLOCK_SIZE - old(self).buf@.len() as int % (BLOCK_SIZE as int) >= CHUNK_HEADER + 1,
            old(self).buf@.len() + 4 * (data@.len() - off) + 2 * BLOCK_SIZE < usize::MAX,
        ensures
            final(self).buf@ == old(self).buf@ + enc_chunks(
                data@.skip(off as int),
                old(self).buf@.len() as nat,
                first,
            ),
            final(self).id == old(self).id,
            final(self).records == old(self).records,
        decreases data@.len() - off,
    {
        let ghost pre = self.buf@;
        let ghost rec = data@.skip(off as int);
        let space = BLOCK_SIZE - (self.buf.len() % BLOCK_SIZE);
        let remaining = data.len() - off;
        if remaining + CHUNK_HEADER <= space {
            let tag = chunk_tag(
                if first {
                    ChunkType::Full
                } else {
                    ChunkType::Last
                },
            );
            self.buf.push(tag);
            self.buf.push((remaining % 256) as u8);
            self.buf.push(((remaining / 256) % 256) as u8);
            let mut i: usize = 0;
            while i < remaining
                invariant
                    i <= remaining,
                    self.buf@ == pre + seq![
                        tag,
                        (rec.len() % 256) as u8,
                        ((rec.len() / 256) % 256) as u8,
                    ] + rec.take(i as int),
                    self.id == old(self).id,
                    self.records == old(self).records,
                decreases remaining - i,
            {
                self.buf.push(data[off + i]);
                proof {
                    assert(self.buf@ =~= pre + seq![
                        tag,
                        (rec.len() % 256) as u8,
                        ((rec.len() / 256) % 256) as u8,
                    ] + rec.take(i + 1));
                }
                i += 1;
            }
            proof {
                assert(rec.take(remaining as int) =~= rec);
                assert(self.buf@ =~= pre + enc_chunk(tag, rec));
            }
        } else {
            let take = space - CHUNK_HEADER;
            let tag = chunk_tag(
                if first {
                    ChunkType::First
                } else {
                    ChunkType::Middle
                },
            );
            self.buf.push(tag);
            self.buf.push((take % 256) as u8);
            self.buf.push(((take / 256) % 256) as u8);
            let mut i: usize = 0;
            while i < take
                invariant
                    i <= take,
                    take < remaining,
                    self.buf@ == pre + seq![
                        tag,
                        (take % 256) as u8,
                        ((take / 256) % 256) as u8,
                    ] + rec.take(i as int),
                    self.id == old(self).id,
                    self.records == old(self).records,
                decreases take - i,
            {
                self.buf.push(data[off + i]);
                proof {
                    assert(self.buf@ =~= pre + seq![
                        tag,
                        (take % 256) as u8,
                        ((take / 256) % 256) as u8,
                    ] + rec.take(i + 1));
                }
                i += 1;
            }
            let ghost mid = self.buf@;
            proof {
                assert(rec.take(take as int).len() == take);
                assert(mid =~= pre + enc_chunk(tag, rec.take(take as int)));
                assert(mid.len() as int % (BLOCK_SIZE as int) == 0) by (nonlinear_arith)
                    requires
                        mid.len() == pre.len() + CHUNK_HEADER + take,
                        take == BLOCK_SIZE - (pre.len() as int % (BLOCK_SIZE as int)) - CHUNK_HEADER,
                        0 <= pre.len() as int % (BLOCK_SIZE as int) < BLOCK_SIZE,
                        pre.len() as int % (BLOCK_SIZE as int) == pre.len() - (pre.len() as int / (
                        BLOCK_SIZE as int)) * BLOCK_SIZE,
                ;
            }
            self.write_chunks(data, off + take, false);
            proof {
                assert(data@.skip((off + take) as int) =~= rec.skip(take as int));
                assert(self.buf@ =~= pre + (enc_chunk(tag, rec.take(take as int)) + enc_chunks(
                    rec.skip(take as int),
                    0,
                    false,
                )));
            }
        }
    }

    /// Appends one record, split across blocks as needed: a record that fits
    /// the current block's tail is one Full chunk; a longer one spans blocks
    /// as First, Middle..., Last. Where the block tail cannot even hold a
    /// header, it is zero-padded and the record starts on the next block.
    #[verifier::loop_isolation(false)]
    pub fn write(&mut self, data: &[u8]) -> (n: usize)
        requires
            old(self).wf(),
            0 < data@.len(),
            old(self).buf@.len() + 4 * data@.len() + 3 * BLOCK_SIZE < usize::MAX,
        ensures
            final(self).wf(),
            final(self).records@ == old(self).records@.push(data@),
            final(self).buf@ == old(self).buf@ + enc_record(data@, old(self).buf@.len() as nat),
            final(self).id == old(self).id,
            n == final(self).buf@.len() - old(self).buf@.len(),
    {
        let ghost pre = self.buf@;
        let start = self.buf.len();
        let space0 = BLOCK_SIZE - (start % BLOCK_SIZE);
        if space0 < CHUNK_HEADER + 1 {
            let mut z: usize = 0;
            while z < space0
                invariant
                    z <= space0,
                    self.buf@ == pre + zeros(z as nat),
                    self.id == old(self).id,
                    self.records == old(self).records,
                decreases space0 - z,
            {
                self.buf.push(0);
                proof {
                    assert(self.buf@ =~= pre + zeros((z + 1) as nat));
                }
                z += 1;
            }
            proof {
                assert(self.buf@.len() as int % (BLOCK_SIZE as int) == 0) by (nonlinear_arith)
                    requires
                        self.buf@.len() == pre.len() + (BLOCK_SIZE - pre.len() as int % (
                        BLOCK_SIZE as int)),
                        0 <= pre.len() as int % (BLOCK_SIZE as int) < BLOCK_SIZE,
                        pre.len() as int % (BLOCK_SIZE as int) == pre.len() - (pre.len() as int / (
                        BLOCK_SIZE as int)) * BLOCK_SIZE,
                ;
            }
        }
        let ghost padded = self.buf@;
        self.write_chunks(data, 0, true);
        proof {
            assert(data@.skip(0) =~= data@);
            assert(self.buf@ =~= pre + enc_record(data@, pre.len() as nat));
        }
        self.records = Ghost(self.records@.push(data@));
        proof {
            assert(self.records@.drop_last() =~= old(self).records@);
            assert(self.records@.last() == data@);
            assert(wal_encode(self.records@) == wal_encode(old(self).records@) + enc_record(
                data@,
                wal_encode(old(self).records@).len(),
            ));
        }
        self.buf.len() - start
    }
}

/// The reopen scan from position `pos`: blocks are walked chunk by chunk,
/// padding is skipped, whole records are collected in order, and the scan
/// stops at a torn chunk or an orphaned continuation — so a trailing
/// First/Middle sequence without its Last chunk (a crash-torn write) is
/// discarded.
pub open spec fn wal_scan(
    b: Seq<u8>,
    pos: int,
    partial: Option<Seq<u8>>,
    out: Seq<Seq<u8>>,
) -> Seq<Seq<u8>>
    decreases b.len() - pos,
        when 0 <= pos <= b.len()
{
    if pos < 0 || pos + CHUNK_HEADER > b.len() {
        out
    } else {
        let space = BLOCK_SIZE - pos % (BLOCK_SIZE as int);
        if space < CHUNK_HEADER + 1 {
            wal_scan(b, pos + space, partial, out)
        } else {
            let tag = b[pos];
            let len = b[pos + 1] + 256 * (b[pos + 2] as int);
            if pos + CHUNK_HEADER + len > b.len() {
                out
            } else {
                let payload = b.subrange(pos + CHUNK_HEADER, pos + CHUNK_HEADER + len);
                let next = pos + CHUNK_HEADER + len;
                if tag == 0 {
                    wal_scan(b, next, None, out.push(payload))
                } else if tag == 1 {
                    wal_scan(b, next, Some(payload), out)
                } else if tag == 2 {
                    match partial {
                        Some(p) => wal_scan(b, next, Some(p + payload), out),
                        None => out,
                    }
                } else if tag == 3 {
                    match partial {
                        Some(p) => wal_scan(b, next, None, out.push(p + payload)),
                        None => out,
                    }
                } else {
                    out
                }
            }
        }
    }
}

/// The records a reopened log's bytes yield.
pub open spec fn wal_recovered(b: Seq<u8>) -> Seq<Seq<u8>> {
    wal_scan(b, 0, None, Seq::empty())
}

/// Scans a log's bytes on reopen: exactly the records `wal_recovered` names,
/// in write order, with any crash-torn tail discarded.
#[verifier::loop_isolation(false)]
pub fn recover(bytes: &[u8]) -> (r: Vec<Vec<u8>>)
    ensures
        Seq::new(r@.len(), |i: int| r@[i]@) == wal_recovered(bytes@),
{
    let mut out: Vec<Vec<u8>> = Vec::new();
    let mut partial: Option<Vec<u8>> = None;
    let mut pos: usize = 0;
    proof {
        assert(Seq::new(out@.len(), |i: int| out@[i]@) =~= Seq::<Seq<u8>>::empty());
    }
    while pos < bytes.len() && bytes.len() - pos >= CHUNK_HEADER
        invariant
            pos <= bytes@.len(),
            wal_recovered(bytes@) == wal_scan(
                bytes@,
                pos as int,
                match partial {
                    Some(p) => Some(p@),
                    None => None::<Seq<u8>>,
                },
                Seq::new(out@.len(), |i: int| out@[i]@),
            ),
        decreases bytes@.len() - pos,
    {
        let ghost outs = Seq::new(out@.len(), |i: int| out@[i]@);
        let space = BLOCK_SIZE - pos % BLOCK_SIZE;
        if space < CHUNK_HEADER + 1 {
            pos = pos + space;
            continue ;
        }
        let tag = bytes[pos];
        let len: usize = (bytes[pos + 1] as usize) + 256 * (bytes[pos + 2] as usize);
        if len > bytes.len() - pos - CHUNK_HEADER {
            return out;
        }
        let start = pos + CHUNK_HEADER;
        let mut payload: Vec<u8> = Vec::new();
        let mut t: usize = 0;
        while t < len
            invariant
                t <= len,
                start + len <= bytes@.len(),
                payload@ == bytes@.subrange(start as int, start + t),
            decreases len - t,
        {
            payload.push(bytes[start + t]);
            proof {
                assert(payload@ =~= bytes@.subrange(start as int, start + t + 1));
            }
            t += 1;
        }
        if tag == 0 {
            partial = None;
            out.push(payload);
            proof {
                assert(Seq::new(out@.len(), |i: int| out@[i]@) =~= outs.push(
                    bytes@.subrange(start as int, start + len),
                ));
            }
        } else if tag == 1 {
            partial = Some(payload);
        } else if tag == 2 {
            match partial {
                Some(mut p) => {
                    let ghost pv = p@;
                    p.append(&mut payload);
                    proof {
                        assert(p@ =~= pv + bytes@.subrange(start as int, start + len));
                    }
                    partial = Some(p);
                },
                None => {
                    return out;
                },
            }
        } else if tag == 3 {
            match partial {
                Some(mut p) => {
                    let ghost pv = p@;
                    p.append(&mut payload);
                    proof {
                        assert(p@ =~= pv + bytes@.subrange(start as int, start + len));
                    }
                    out.push(p);
                    partial = None;
                    proof {
                        assert(Seq::new(out@.len(), |i: int| out@[i]@) =~= outs.push(
                            pv + bytes@.subrange(start as int, start + len),
                        ));
                    }
                },
                None => {
                    return out;
                },
            }
        } else {
            return out;
        }
        pos = start + len;
    }
    out
}

/// A write-ahead log over one active segment.
pub struct RwWal {
    pub active_segment: Segment,
    pub options: Options,
}

impl RwWal {
    /// A fresh log with one empty active segment, numbered zero.
    pub fn new(options: Options) -> (w: RwWal)
        ensures
            w.active_segment.wf(),
            w.active_segment.records@ == Seq::<Seq<u8>>::empty(),
            w.active_segment.id == 0,
    {
        let io = options.io_type;
        RwWal { active_segment: Segment::open(io, 0), options }
    }
}

/// The file name of a WAL segment: the id zero-padded to at least nine
/// digits, then the extension, under the directory. Distinct ids give
/// distinct names.
pub fn segment_file_name(dir_path: &str, ext_name: &str, id: u32) -> (r: String)
    ensures
        r@ == dir_path@ + seq!['/'] + pad_min9(id as nat) + ext_name@,
{
    let mut r = String::new();
    r.append(dir_path);
    string_push_char(&mut r, '/');
    u32_pad_min9(id, &mut r);
    r.append(ext_name);
    proof {
        assert(r@ =~= dir_path@ + seq!['/'] + pad_min9(id as nat) + ext_name@);
    }
    r
}

/// Front-recursive image of a whole log: each record encoded at the running
/// position. Equals `wal_encode`; the scan induction runs front to back.
pub open spec fn enc_from(records: Seq<Seq<u8>>, pos: nat) -> Seq<u8>
    decreases records.len(),
{
    if records.len() == 0 {
        Seq::empty()
    } else {
        enc_record(records[0], pos) + enc_from(
            records.skip(1),
            pos + enc_record(records[0], pos).len(),
        )
    }
}

proof fn lemma_enc_from_push(records: Seq<Seq<u8>>, r: Seq<u8>, pos: nat)
    ensures
        enc_from(records.push(r), pos) == enc_from(records, pos) + enc_record(
            r,
            pos + enc_from(records, pos).len(),
        ),
    decreases records.len(),
{
    if records.len() == 0 {
        let e = enc_record(r, pos);
        assert(records.push(r)[0] == r);
        assert(records.push(r).skip(1) =~= Seq::<Seq<u8>>::empty());
        assert(enc_from(Seq::<Seq<u8>>::empty(), pos + e.len()) =~= Seq::<u8>::empty());
        assert(enc_from(records.push(r), pos) == e + enc_from(
            records.push(r).skip(1),
            pos + e.len(),
        ));
        assert(enc_from(records, pos) =~= Seq::<u8>::empty());
        assert(enc_from(records.push(r), pos) =~= enc_from(records, pos) + enc_record(
            r,
            pos + enc_from(records, pos).len(),
        ));
    } else {
        let e0 = enc_record(records[0], pos);
        let pos1 = pos + e0.len();
        assert(records.push(r)[0] == records[0]);
        assert(records.push(r).skip(1) =~= records.skip(1).push(r));
        assert(enc_from(records, pos) == e0 + enc_from(records.skip(1), pos1));
        assert(enc_from(records.push(r), pos) == e0 + enc_from(records.skip(1).push(r), pos1));
        lemma_enc_from_push(records.skip(1), r, pos1);
        assert(enc_from(records.push(r), pos) =~= enc_from(records, pos) + enc_record(
            r,
            pos + enc_from(records, pos).len(),
        ));
    }
}

proof fn lemma_wal_encode_enc_from(records: Seq<Seq<u8>>)
    ensures
        wal_encode(records) == enc_from(records, 0),
    decreases records.len(),
{
    if records.len() > 0 {
        lemma_wal_encode_enc_from(records.drop_last());
        assert(records.drop_last().push(records.last()) =~= records);
        lemma_enc_from_push(records.drop_last(), records.last(), 0);
    }
}

/// At a position whose block tail fits a chunk, scanning the chunks of one
/// record collects that record (joined to the partial piece when the record's
/// first chunk came earlier) and moves past them.
proof fn lemma_scan_chunks(
    b: Seq<u8>,
    pos: int,
    rec: Seq<u8>,
    first: bool,
    p: Seq<u8>,
    out: Seq<Seq<u8>>,
)
    requires
        0 <= pos,
        BLOCK_SIZE - pos % (BLOCK_SIZE as int) >= CHUNK_HEADER + 1,
        pos + enc_chunks(rec, pos as nat, first).len() <= b.len(),
        b.subrange(pos, pos + enc_chunks(rec, pos as nat, first).len() as int) == enc_chunks(
            rec,
            pos as nat,
            first,
        ),
    ensures
        wal_scan(
            b,
            pos,
            if first {
                None
            } else {
                Some(p)
            },
            out,
        ) == wal_scan(
            b,
            pos + enc_chunks(rec, pos as nat, first).len() as int,
            None,
            out.push(
                if first {
                    rec
                } else {
                    p + rec
                },
            ),
        ),
    decreases rec.len(),
{
    let enc = enc_chunks(rec, pos as nat, first);
    let space = BLOCK_SIZE - pos % (BLOCK_SIZE as int);
    if rec.len() + CHUNK_HEADER <= space {
        let tag = tag_of(
            if first {
                ChunkType::Full
            } else {
                ChunkType::Last
            },
        );
        assert(enc == enc_chunk(tag, rec));
        let l = rec.len() as int;
        assert(enc.len() == CHUNK_HEADER + l);
        assert(b[pos] == enc[0] && enc[0] == tag) by {
            assert(b.subrange(pos, pos + enc.len() as int)[0] == enc[0]);
        }
        assert(b[pos + 1] == enc[1] && b[pos + 2] == enc[2]) by {
            assert(b.subrange(pos, pos + enc.len() as int)[1] == enc[1]);
            assert(b.subrange(pos, pos + enc.len() as int)[2] == enc[2]);
        }
        assert(l < 65536);
        assert((l % 256) + 256 * ((l / 256) % 256) == l) by (nonlinear_arith)
            requires
                0 <= l < 65536,
        ;
        assert(b[pos + 1] as int + 256 * (b[pos + 2] as int) == l);
        assert(b.subrange(pos + CHUNK_HEADER, pos + CHUNK_HEADER + l) =~= rec) by {
            assert forall|i: int| 0 <= i < l implies b.subrange(
                pos + CHUNK_HEADER,
                pos + CHUNK_HEADER + l,
            )[i] == rec[i] by {
                assert(b.subrange(pos, pos + enc.len() as int)[CHUNK_HEADER + i] == enc[CHUNK_HEADER
                    + i]);
            }
        }
    } else {
        let take = space - CHUNK_HEADER;
        assert(1 <= take < rec.len());
        let head = rec.take(take);
        let tag = tag_of(
            if first {
                ChunkType::First
            } else {
                ChunkType::Middle
            },
        );
        let tail = enc_chunks(rec.skip(take), 0, false);
        assert(enc == enc_chunk(tag, head) + tail);
        let l = take;
        assert(enc_chunk(tag, head).len() == CHUNK_HEADER + l);
        lemma_bytes_prefix_split(b, pos, enc_chunk(tag, head), tail);
        assert(b[pos] == tag && b[pos + 1] as int + 256 * (b[pos + 2] as int) == l) by {
            assert(b.subrange(pos, pos + CHUNK_HEADER + l)[0] == enc_chunk(tag, head)[0]);
            assert(b.subrange(pos, pos + CHUNK_HEADER + l)[1] == enc_chunk(tag, head)[1]);
            assert(b.subrange(pos, pos + CHUNK_HEADER + l)[2] == enc_chunk(tag, head)[2]);
            assert(l < 65536);
            assert((l % 256) + 256 * ((l / 256) % 256) == l) by (nonlinear_arith)
                requires
                    0 <= l < 65536,
            ;
        }
        assert(b.subrange(pos + CHUNK_HEADER, pos + CHUNK_HEADER + l) =~= head) by {
            assert forall|i: int| 0 <= i < l implies b.subrange(
                pos + CHUNK_HEADER,
                pos + CHUNK_HEADER + l,
            )[i] == head[i] by {
                assert(b.subrange(pos, pos + CHUNK_HEADER + l)[CHUNK_HEADER + i] == enc_chunk(
                    tag,
                    head,
                )[CHUNK_HEADER + i]);
            }
        }
        let next = pos + CHUNK_HEADER + l;
        assert(next == pos + space);
        assert(next % (BLOCK_SIZE as int) == 0) by (nonlinear_arith)
            requires
                next == pos + BLOCK_SIZE - pos % (BLOCK_SIZE as int),
                0 <= pos,
                BLOCK_SIZE == 32768,
        ;
        lemma_enc_chunks_mod(rec.skip(take), next as nat);
        lemma_scan_chunks(
            b,
            next,
            rec.skip(take),
            false,
            if first {
                head
            } else {
                p + head
            },
            out,
        );
        assert((if first {
            head
        } else {
            p + head
        }) + rec.skip(take) =~= (if first {
            rec
        } else {
            p + rec
        }));
    }
}

/// A record's chunk encoding depends on the position only through the
/// block offset; at a block boundary it equals the encoding at zero.
proof fn lemma_enc_chunks_mod(rec: Seq<u8>, p: nat)
    requires
        p % (BLOCK_SIZE as nat) == 0,
    ensures
        enc_chunks(rec, p, false) == enc_chunks(rec, 0, false),
{
}

/// Splitting a known subrange of `s` into its two parts.
proof fn lemma_bytes_prefix_split(s: Seq<u8>, pos: int, a: Seq<u8>, b: Seq<u8>)
    requires
        0 <= pos,
        pos + a.len() + b.len() <= s.len(),
        s.subrange(pos, pos + a.len() + b.len()) == a + b,
    ensures
        s.subrange(pos, pos + a.len()) == a,
        s.subrange(pos + a.len(), pos + a.len() + b.len()) == b,
{
    let al = a.len() as int;
    let bl = b.len() as int;
    assert forall|k: int| 0 <= k < al implies s.subrange(pos, pos + al)[k] == a[k] by {
        assert(s.subrange(pos, pos + al + bl)[k] == (a + b)[k]);
    }
    assert(s.subrange(pos, pos + al) =~= a);
    assert forall|k: int| 0 <= k < bl implies s.subrange(pos + al, pos + al + bl)[k] == b[k] by {
        assert(s.subrange(pos, pos + al + bl)[al + k] == (a + b)[al + k]);
    }
    assert(s.subrange(pos + al, pos + al + bl) =~= b);
}

/// Scanning one whole record's encoding — padding included — collects the
/// record and moves past it.
proof fn lemma_scan_record(b: Seq<u8>, pos: int, rec: Seq<u8>, out: Seq<Seq<u8>>)
    requires
        0 <= pos,
        pos + enc_record(rec, pos as nat).len() <= b.len(),
        b.subrange(pos, pos + enc_record(rec, pos as nat).len() as int) == enc_record(
            rec,
            pos as nat,
        ),
    ensures
        wal_scan(b, pos, None, out) == wal_scan(
            b,
            pos + enc_record(rec, pos as nat).len() as int,
            None,
            out.push(rec),
        ),
{
    let enc = enc_record(rec, pos as nat);
    let space = BLOCK_SIZE - pos % (BLOCK_SIZE as int);
    assert(1 <= space <= BLOCK_SIZE);
    if space < CHUNK_HEADER + 1 {
        let chunks = enc_chunks(rec, 0, true);
        assert(enc == zeros(space as nat) + chunks);
        assert(chunks.len() >= CHUNK_HEADER);
        assert(pos + CHUNK_HEADER <= b.len());
        assert(wal_scan(b, pos, None, out) == wal_scan(b, pos + space, None, out));
        assert((pos + space) % (BLOCK_SIZE as int) == 0) by (nonlinear_arith)
            requires
                space == BLOCK_SIZE - pos % (BLOCK_SIZE as int),
                0 <= pos,
                BLOCK_SIZE == 32768,
        ;
        assert(enc_chunks(rec, (pos + space) as nat, true) == enc_chunks(rec, 0, true));
        lemma_bytes_prefix_split(b, pos, zeros(space as nat), chunks);
        lemma_scan_chunks(b, pos + space, rec, true, Seq::empty(), out);
    } else {
        assert(enc == enc_chunks(rec, pos as nat, true));
        lemma_scan_chunks(b, pos, rec, true, Seq::empty(), out);
    }
}

/// Scanning a log that from `pos` on holds exactly the records' encodings
/// collects exactly the records, in order.
proof fn lemma_scan_all(b: Seq<u8>, pos: int, records: Seq<Seq<u8>>, out: Seq<Seq<u8>>)
    requires
        0 <= pos <= b.len(),
        b.len() == pos + enc_from(records, pos as nat).len(),
        b.subrange(pos, b.len() as int) == enc_from(records, pos as nat),
    ensures
        wal_scan(b, pos, None, out) == out + records,
    decreases records.len(),
{
    if records.len() == 0 {
        assert(pos == b.len());
        assert(wal_scan(b, pos, None, out) == out);
        assert(out + records =~= out);
    } else {
        let r0 = records[0];
        let e0 = enc_record(r0, pos as nat);
        let rest = enc_from(records.skip(1), (pos + e0.len()) as nat);
        assert(enc_from(records, pos as nat) == e0 + rest);
        lemma_bytes_prefix_split(b, pos, e0, rest);
        lemma_scan_record(b, pos, r0, out);
        lemma_scan_all(b, pos + e0.len() as int, records.skip(1), out.push(r0));
        assert(out.push(r0) + records.skip(1) =~= out + records);
    }
}

/// Reopening a log that holds exactly the encoding of the records yields the
/// records, in order: the block framing and the crash-recovery scan are
/// inverses of one another.
pub proof fn lemma_wal_round_trip(records: Seq<Seq<u8>>)
    ensures
        wal_recovered(wal_encode(records)) == records,
{
    lemma_wal_encode_enc_from(records);
    let b = wal_encode(records);
    assert(b.subrange(0, b.len() as int) =~= b);
    lemma_scan_all(b, 0, records, Seq::empty());
    assert(Seq::<Seq<u8>>::empty() + records =~= records);
}

} // verus!
