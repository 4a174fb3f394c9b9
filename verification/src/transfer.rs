//! The pure decision core of the transfer orchestrator.
//!
//! The event loop, the threads and every filesystem touch live outside the
//! library; they hand in plain values — a directory walk as a list of
//! entries, a file's on-disk length, a chunk read from a file — and this
//! module decides what the machine is told and what must be written where.
//! The resume and byte-exactness laws of chunked sending are proved at the
//! end.

use vstd::prelude::*;

use crate::api::Chunk;
use crate::api::FileInfo;
use crate::api::FileOpened;
use crate::api::ReceiveRequest;
use crate::api::SendRequest;
use crate::machine::post_step;
use crate::machine::OpenFile;
use crate::machine::Client;
use crate::machine::ClientError;
use crate::machine::ClientEventV;
use crate::machine::InputV;
use crate::machine::StateV;
use crate::message::MessageWriter;
use crate::transport::TransportConfig;
use crate::transport::TransportWriter;

verus! {

/// The default chunk size: 512 KiB.
pub fn default_buffer_size() -> (r: usize)
    ensures
        r == 524288,
{
    524288
}

/// One entry of a directory walk: a path relative to the transfer root and
/// the entry's size in bytes.
#[derive(Debug)]
pub struct FileEntry {
    pub rel_path: String,
    pub size: u64,
}

/// Why the receiver refused a chunk.
#[derive(Debug, PartialEq)]
pub enum TransferError {
    /// The chunk's offset is not the current file position: a protocol
    /// violation or a file changed on disk.
    ChunkOffsetMismatch,
    /// The chunk would run past the largest representable file position.
    OffsetOverflow,
}

/// The sum of the entry sizes.
pub open spec fn entries_total(entries: Seq<FileEntry>) -> int
    decreases entries.len(),
{
    if entries.len() == 0 {
        0
    } else {
        entries[0].size + entries_total(entries.drop_first())
    }
}

proof fn lemma_entries_total_snoc(entries: Seq<FileEntry>, e: FileEntry)
    ensures
        entries_total(entries.push(e)) == entries_total(entries) + e.size,
    decreases entries.len(),
{
    if entries.len() == 0 {
        assert(entries.push(e)[0] == e);
        assert(entries.push(e).drop_first() =~= Seq::<FileEntry>::empty());
        assert(entries_total(entries.push(e).drop_first()) == 0);
    } else {
        assert(entries.push(e)[0] == entries[0]);
        assert(entries.push(e).drop_first() =~= entries.drop_first().push(e));
        lemma_entries_total_snoc(entries.drop_first(), e);
    }
}

/// Whether a file description names a directory.
pub fn file_info_is_directory(info: &FileInfo) -> (r: bool)
    ensures
        r == (info.mode & 0o40000 != 0),
{
    info.mode & 0o40000 != 0
}

/// The orchestrator's own state around the machine: the worklist of files
/// still to send, progress totals, and the receiver's open-file position.
pub struct FileClient {
    /// The protocol machine; the event loop drains its events and output.
    pub client: Client,
    pub buffer_size: usize,
    pub current_file_path: Option<String>,
    pub remaining_files_to_send: Option<Vec<String>>,
    pub total_bytes_sent: u64,
    pub total_bytes_to_send: u64,
    pub receiver_open: bool,
    pub receiver_position: u64,
}

impl FileClient {
    pub open spec fn wf(&self) -> bool {
        self.client.wf()
    }

    /// The relative paths still to send, next-to-send last.
    pub open spec fn worklist(&self) -> Option<Seq<Seq<char>>> {
        match self.remaining_files_to_send {
            Some(ref v) => Some(v.deep_view()),
            None => None,
        }
    }

    /// The relative path of the file currently being sent.
    pub open spec fn current_file(&self) -> Option<Seq<char>> {
        match self.current_file_path {
            Some(ref p) => Some(p@),
            None => None,
        }
    }

    /// Whether the receiver holds an open destination file.
    pub open spec fn recv_open(&self) -> bool {
        self.receiver_open
    }

    /// The receiver's current file position: every accepted chunk starts
    /// exactly here.
    pub open spec fn recv_pos(&self) -> u64 {
        self.receiver_position
    }

    /// Bytes of finished files, for progress reporting.
    pub open spec fn sent(&self) -> u64 {
        self.total_bytes_sent
    }

    /// Bytes the whole transfer will move, for progress reporting.
    pub open spec fn to_send(&self) -> u64 {
        self.total_bytes_to_send
    }

    /// The chunk size the sender uses.
    pub open spec fn buffer(&self) -> usize {
        self.buffer_size
    }

    pub fn new() -> (r: FileClient)
        ensures
            r.wf(),
            r.client.state_view() == StateV::Initial,
            r.client.events_view() == Seq::<ClientEventV>::empty(),
            r.client.outgoing() == Seq::<u8>::empty(),
            r.worklist() is None,
            !r.recv_open(),
            r.sent() == 0,
            r.to_send() == 0,
            r.buffer() == 524288,
    {
        let config = TransportConfig::new();
        let writer = MessageWriter::new(TransportWriter::new(config));
        FileClient {
            client: Client::new(writer),
            buffer_size: default_buffer_size(),
            current_file_path: None,
            remaining_files_to_send: None,
            total_bytes_sent: 0,
            total_bytes_to_send: 0,
            receiver_open: false,
            receiver_position: 0,
        }
    }

    /// Ask the peer to send us files.
    pub fn receive(&mut self) -> (r: Result<(), ClientError>)
        requires
            old(self).wf(),
        ensures
            final(self).wf(),
            post_step(
                old(self).client,
                final(self).client,
                InputV::RequestInboundTransfer(
                    crate::api::ReceiveRequestV {
                        allow_directories: false,
                        allow_multiple: true,
                    },
                ),
                r,
            ),
            final(self).worklist() == old(self).worklist(),
            final(self).recv_open() == old(self).recv_open(),
            final(self).recv_pos() == old(self).recv_pos(),
            final(self).sent() == old(self).sent(),
            final(self).to_send() == old(self).to_send(),
    {
        self.client.request_inbound_transfer(
            ReceiveRequest { allow_directories: false, allow_multiple: true },
        )
    }

    /// Offer the peer a transfer.  The caller walked the root once: for a
    /// directory, `entries` lists every descendant with its size and
    /// `is_dir` is true; for a single file the worklist is the sentinel
    /// `"."` and the total is the root's own size.
    pub fn send(&mut self, root: FileInfo, entries: Vec<FileEntry>, is_dir: bool) -> (r: Result<
        (),
        ClientError,
    >)
        requires
            old(self).wf(),
            entries_total(entries@) <= u64::MAX,
        ensures
            final(self).wf(),
            post_step(
                old(self).client,
                final(self).client,
                InputV::RequestOutboundTransfer(
                    crate::api::SendRequestV { file_info: Some(root@) },
                ),
                r,
            ),
            final(self).sent() == 0,
            is_dir ==> final(self).to_send() == entries_total(entries@),
            !is_dir ==> final(self).to_send() == root.size,
            is_dir ==> final(self).worklist() == Some(entry_paths(entries@)),
            !is_dir ==> final(self).worklist() == Some(seq!["."@]),
    {
        let mut total: u64 = 0;
        let mut paths: Vec<String> = Vec::new();
        if is_dir {
            let mut i: usize = 0;
            proof {
                assert(entries@.take(0int) =~= Seq::<FileEntry>::empty());
                assert(paths.deep_view() =~= Seq::<Seq<char>>::empty());
                assert(entry_paths(entries@).take(0int) =~= Seq::<Seq<char>>::empty());
            }
            while i < entries.len()
                invariant
                    i <= entries@.len(),
                    entries_total(entries@) <= u64::MAX,
                    total == entries_total(entries@.take(i as int)),
                    paths.deep_view() == entry_paths(entries@).take(i as int),
                decreases entries@.len() - i,
            {
                proof {
                    lemma_entries_total_prefix(entries@, i as int);
                }
                total = total + entries[i].size;
                let ghost prevp = paths.deep_view();
                paths.push(entries[i].rel_path.clone());
                proof {
                    lemma_entries_total_snoc(
                        entries@.take(i as int),
                        entries@[i as int],
                    );
                    assert(entries@.take(i + 1)
                        =~= entries@.take(i as int).push(
                        entries@[i as int],
                    ));
                    assert(paths.deep_view() =~= prevp.push(entries@[i as int].rel_path@));
                    assert(prevp.push(entries@[i as int].rel_path@) =~= entry_paths(
                        entries@,
                    ).take(i + 1));
                }
                i = i + 1;
            }
            proof {
                assert(entries@.take(entries@.len() as int)
                    =~= entries@);
                assert(entry_paths(entries@).take(entries@.len() as int)
                    =~= entry_paths(entries@));
            }
        } else {
            total = root.size;
            paths.push(".".to_owned());
            proof {
                assert(paths.deep_view() =~= seq!["."@]);
            }
        }
        self.total_bytes_sent = 0;
        self.total_bytes_to_send = total;
        self.remaining_files_to_send = Some(paths);
        self.client.request_outbound_transfer(SendRequest { file_info: Some(root) })
    }

    /// Pop the next file to send.  `Ok(Some(path))` asks the caller to look
    /// the file up and call [`FileClient::open_next_file`]; with an empty
    /// worklist the transfer is closed; with no worklist nothing happens.
    pub fn maybe_send_next_file(&mut self) -> (r: Result<Option<String>, ClientError>)
        requires
            old(self).wf(),
        ensures
            final(self).wf(),
            (match old(self).worklist() {
                None => {
                    &&& r is Ok
                    &&& (r matches Ok(o) && o is None)
                    &&& final(self).client == old(self).client
                    &&& final(self).worklist() is None
                },
                Some(ws) => {
                    if ws.len() > 0 {
                        match r {
                            Ok(Some(p)) => {
                                &&& p@ == ws.last()
                                &&& final(self).worklist() == Some(ws.drop_last())
                                &&& final(self).current_file() == Some(ws.last())
                                &&& final(self).client == old(self).client
                            },
                            _ => false,
                        }
                    } else {
                        &&& r is Ok
                        &&& (r matches Ok(o) && o is None)
                        &&& final(self).worklist() == Some(ws)
                        &&& final(self).current_file() is None
                        &&& post_step(
                            old(self).client,
                            final(self).client,
                            InputV::CloseTransfer,
                            Ok(()),
                        )
                    }
                },
            }),
            final(self).recv_open() == old(self).recv_open(),
            final(self).sent() == old(self).sent(),
            final(self).to_send() == old(self).to_send(),
    {
        match &mut self.remaining_files_to_send {
            Some(remaining) => {
                let ghost ws = remaining.deep_view();
                match remaining.pop() {
                    Some(path) => {
                        proof {
                            assert(remaining.deep_view() =~= ws.drop_last());
                        }
                        self.current_file_path = Some(path.clone());
                        Ok(Some(path))
                    },
                    None => {
                        self.current_file_path = None;
                        match self.client.close_transfer() {
                            Ok(_) => Ok(None),
                            Err(e) => Err(e),
                        }
                    },
                }
            },
            None => Ok(None),
        }
    }

    /// Tell the peer to open the file just popped from the worklist,
    /// described by its stat results.
    pub fn open_next_file(&mut self, rel_path: String, size: u64, mode: u32) -> (r: Result<
        (),
        ClientError,
    >)
        requires
            old(self).wf(),
        ensures
            final(self).wf(),
            post_step(
                old(self).client,
                final(self).client,
                InputV::OpenFile(
                    crate::api::OpenFileV {
                        file_info: Some(
                            crate::api::FileInfoV { name: rel_path@, size, mode },
                        ),
                    },
                ),
                r,
            ),
            final(self).worklist() == old(self).worklist(),
            final(self).recv_open() == old(self).recv_open(),
            final(self).sent() == old(self).sent(),
            final(self).to_send() == old(self).to_send(),
    {
        self.client.open_file(
            crate::api::OpenFile {
                file_info: Some(FileInfo { name: rel_path, size, mode }),
            },
        )
    }

    /// Confirm an inbound file: the destination is open for append at
    /// `position`, which the peer uses as `continue_from` to resume.
    pub fn begin_receiving_file(&mut self, position: u64) -> (r: Result<(), ClientError>)
        requires
            old(self).wf(),
        ensures
            final(self).wf(),
            post_step(
                old(self).client,
                final(self).client,
                InputV::ConfirmFileOpened(
                    crate::api::FileOpenedV { continue_from: position },
                ),
                r,
            ),
            r is Ok ==> final(self).recv_open() && final(self).recv_pos() == position,
            final(self).sent() == old(self).sent(),
            final(self).to_send() == old(self).to_send(),
            final(self).worklist() == old(self).worklist(),
    {
        let r = self.client.confirm_file_opened(FileOpened { continue_from: position });
        if r.is_ok() {
            self.receiver_open = true;
            self.receiver_position = position;
        }
        r
    }

    /// Confirm an inbound directory entry: it was created on disk, nothing
    /// is open, and there is nothing to resume.
    pub fn confirm_directory(&mut self) -> (r: Result<(), ClientError>)
        requires
            old(self).wf(),
        ensures
            final(self).wf(),
            post_step(
                old(self).client,
                final(self).client,
                InputV::ConfirmFileOpened(crate::api::FileOpenedV { continue_from: 0 }),
                r,
            ),
            final(self).recv_open() == old(self).recv_open(),
            final(self).recv_pos() == old(self).recv_pos(),
            final(self).sent() == old(self).sent(),
            final(self).to_send() == old(self).to_send(),
            final(self).worklist() == old(self).worklist(),
    {
        self.client.confirm_file_opened(FileOpened { continue_from: 0 })
    }

    /// Refuse an inbound file by closing the whole transfer.
    pub fn decline_inbound_file(&mut self) -> (r: Result<(), ClientError>)
        requires
            old(self).wf(),
        ensures
            final(self).wf(),
            post_step(old(self).client, final(self).client, InputV::CloseTransfer, r),
            final(self).recv_open() == old(self).recv_open(),
            final(self).sent() == old(self).sent(),
            final(self).to_send() == old(self).to_send(),
            final(self).worklist() == old(self).worklist(),
    {
        self.client.close_transfer()
    }

    /// Accept one inbound chunk.  `Ok(true)` means: append the chunk's data
    /// to the open destination file, whose position was exactly the chunk's
    /// offset.  `Ok(false)` means no file is open and the chunk is ignored.
    /// A chunk out of position is a hard error.
    pub fn apply_chunk(&mut self, chunk: &Chunk) -> (r: Result<bool, TransferError>)
        requires
            old(self).wf(),
        ensures
            final(self).wf(),
            final(self).client == old(self).client,
            final(self).worklist() == old(self).worklist(),
            final(self).sent() == old(self).sent(),
            final(self).to_send() == old(self).to_send(),
            !old(self).recv_open() ==> r == Ok::<bool, TransferError>(false) && *final(self)
                == *old(self),
            old(self).recv_open() ==> match r {
                Ok(b) => {
                    &&& b
                    &&& chunk.offset == old(self).recv_pos()
                    &&& chunk.offset + chunk.data@.len() <= u64::MAX
                    &&& final(self).recv_open()
                    &&& final(self).recv_pos() == chunk.offset + chunk.data@.len()
                },
                Err(TransferError::ChunkOffsetMismatch) => chunk.offset != old(self).recv_pos(),
                Err(TransferError::OffsetOverflow) => chunk.offset == old(self).recv_pos()
                    && chunk.offset + chunk.data@.len() > u64::MAX,
            },
    {
        if !self.receiver_open {
            return Ok(false);
        }
        if chunk.offset != self.receiver_position {
            return Err(TransferError::ChunkOffsetMismatch);
        }
        match chunk.offset.checked_add(chunk.data.len() as u64) {
            Some(next) => {
                self.receiver_position = next;
                Ok(true)
            },
            None => Err(TransferError::OffsetOverflow),
        }
    }

    /// Note that the open file of the running transfer closed: the receiver
    /// drops its handle and the finished file's bytes count as sent, capped
    /// at the largest representable total.
    pub fn note_file_closed(&mut self, file: &OpenFile)
        requires
            old(self).wf(),
        ensures
            final(self).wf(),
            final(self).client == old(self).client,
            !final(self).recv_open(),
            final(self).sent() == if old(self).sent() + file.info.size <= u64::MAX {
                (old(self).sent() + file.info.size) as u64
            } else {
                u64::MAX
            },
            final(self).to_send() == old(self).to_send(),
            final(self).worklist() == old(self).worklist(),
    {
        self.receiver_open = false;
        match self.total_bytes_sent.checked_add(file.info.size) {
            Some(t) => {
                self.total_bytes_sent = t;
            },
            None => {
                self.total_bytes_sent = u64::MAX;
            },
        }
    }

    /// Note that the whole transfer closed: the worklist is dropped and the
    /// receiver holds nothing open.
    pub fn note_transfer_closed(&mut self)
        requires
            old(self).wf(),
        ensures
            final(self).wf(),
            final(self).client == old(self).client,
            final(self).worklist() is None,
            !final(self).recv_open(),
            final(self).sent() == old(self).sent(),
            final(self).to_send() == old(self).to_send(),
    {
        self.remaining_files_to_send = None;
        self.receiver_open = false;
    }

    /// Tear the connection down.
    pub fn disconnect(&mut self) -> (r: Result<(), ClientError>)
        requires
            old(self).wf(),
        ensures
            final(self).wf(),
            post_step(old(self).client, final(self).client, InputV::Disconnect, r),
    {
        self.client.disconnect()
    }
}

/// The relative paths of the entries, as character sequences.
pub open spec fn entry_paths(s: Seq<FileEntry>) -> Seq<Seq<char>> {
    s.map_values(|e: FileEntry| e.rel_path@)
}

proof fn lemma_entries_total_prefix(entries: Seq<FileEntry>, i: int)
    requires
        0 <= i < entries.len(),
    ensures
        entries_total(entries.take(i)) <= entries_total(entries),
        entries_total(entries.take(i)) + entries[i].size <= entries_total(entries),
        entries_total(entries) >= 0,
    decreases entries.len(),
{
    lemma_entries_total_nonneg(entries);
    lemma_entries_total_split(entries, i);
    lemma_entries_total_nonneg(entries.skip(i));
    assert(entries.skip(i)[0] == entries[i]);
    lemma_entries_total_nonneg(entries.skip(i).drop_first());
}

proof fn lemma_entries_total_nonneg(entries: Seq<FileEntry>)
    ensures
        entries_total(entries) >= 0,
    decreases entries.len(),
{
    if entries.len() > 0 {
        lemma_entries_total_nonneg(entries.drop_first());
    }
}

proof fn lemma_entries_total_split(entries: Seq<FileEntry>, i: int)
    requires
        0 <= i <= entries.len(),
    ensures
        entries_total(entries) == entries_total(entries.take(i)) + entries_total(
            entries.skip(i),
        ),
    decreases i,
{
    if i == 0 {
        assert(entries.take(0int) =~= Seq::<FileEntry>::empty());
        assert(entries.skip(0int) =~= entries);
    } else {
        assert(entries.take(i)[0] == entries[0]);
        assert(entries.take(i).drop_first() =~= entries.drop_first().take(i - 1));
        assert(entries.skip(i) =~= entries.drop_first().skip(i - 1));
        lemma_entries_total_split(entries.drop_first(), i - 1);
    }
}

/// One planned chunk of the sender's stream.
pub struct ChunkPlan {
    pub offset: int,
    pub data: Seq<u8>,
}

/// The chunk stream a sender emits for file contents `f`, starting at
/// `pos`, with chunks of at most `bs` bytes: contiguous, in increasing
/// offset order, covering `[pos, f.len())`.
pub open spec fn sender_chunks(f: Seq<u8>, pos: int, bs: int) -> Seq<ChunkPlan>
    recommends
        bs >= 1,
        0 <= pos,
    decreases f.len() - pos,
    when 0 <= pos && bs >= 1
{
    if pos >= f.len() {
        Seq::empty()
    } else {
        let l = if bs <= f.len() - pos {
            bs
        } else {
            f.len() - pos
        };
        seq![ChunkPlan { offset: pos, data: f.subrange(pos, pos + l) }] + sender_chunks(
            f,
            pos + l,
            bs,
        )
    }
}

/// What the receiver does with a chunk stream: each chunk must land exactly
/// at the end of the bytes on disk, and is appended there.
pub open spec fn apply_chunks(disk: Seq<u8>, cs: Seq<ChunkPlan>) -> Option<Seq<u8>>
    decreases cs.len(),
{
    if cs.len() == 0 {
        Some(disk)
    } else if cs[0].offset == disk.len() {
        apply_chunks(disk + cs[0].data, cs.drop_first())
    } else {
        None
    }
}

/// The next chunk the sender emits: its offset is the current position, its
/// length at most the buffer size, and it is empty only at end of file.
pub fn next_chunk(position: u64, size: u64, buffer_size: u64) -> (r: Option<(u64, u64)>)
    requires
        buffer_size >= 1,
    ensures
        position >= size ==> r is None,
        position < size ==> r == Some::<(u64, u64)>(
            (
                position,
                if buffer_size <= size - position {
                    buffer_size
                } else {
                    (size - position) as u64
                },
            ),
        ),
{
    if position >= size {
        None
    } else if buffer_size <= size - position {
        Some((position, buffer_size))
    } else {
        Some((position, size - position))
    }
}

/// Resume correctness: when the receiver already holds `n` bytes and
/// confirms `continue_from = n`, the first chunk the sender emits starts
/// exactly at offset `n`.
pub proof fn lemma_resume_offset(f: Seq<u8>, n: int, bs: int)
    requires
        bs >= 1,
        0 <= n < f.len(),
    ensures
        sender_chunks(f, n, bs).len() > 0,
        sender_chunks(f, n, bs)[0].offset == n,
{
}

/// Byte exactness: applying the sender's whole chunk stream to a
/// destination that already holds the first `n` bytes of the file yields
/// exactly the file.
pub proof fn lemma_transfer_byte_exact(f: Seq<u8>, n: int, bs: int)
    requires
        bs >= 1,
        0 <= n <= f.len(),
    ensures
        apply_chunks(f.take(n), sender_chunks(f, n, bs)) == Some(f),
    decreases f.len() - n,
{
    if n >= f.len() {
        assert(f.take(n) =~= f);
    } else {
        let l = if bs <= f.len() - n {
            bs
        } else {
            f.len() - n
        };
        assert(f.take(n) + f.subrange(n, n + l) =~= f.take(n + l));
        let cs = sender_chunks(f, n, bs);
        assert(cs.drop_first() =~= sender_chunks(f, n + l, bs));
        lemma_transfer_byte_exact(f, n + l, bs);
    }
}

/// The order in which a worklist is drained: the stored entries from the
/// last to the first, each exactly once.
pub open spec fn drain_order(ws: Seq<Seq<char>>) -> Seq<Seq<char>>
    decreases ws.len(),
{
    if ws.len() == 0 {
        Seq::empty()
    } else {
        seq![ws.last()] + drain_order(ws.drop_last())
    }
}

/// Directory completeness: draining the worklist visits every stored entry
/// exactly once, in reverse of the stored order.
pub proof fn lemma_drain_order(ws: Seq<Seq<char>>)
    ensures
        drain_order(ws).len() == ws.len(),
        forall|i: int| 0 <= i < ws.len() ==> #[trigger] drain_order(ws)[i] == ws[ws.len() - 1
            - i],
    decreases ws.len(),
{
    if ws.len() > 0 {
        lemma_drain_order(ws.drop_last());
        assert forall|i: int| 0 <= i < ws.len() implies #[trigger] drain_order(ws)[i]
            == ws[ws.len() - 1 - i] by {
            if i > 0 {
                assert(drain_order(ws)[i] == drain_order(ws.drop_last())[i - 1]);
                assert(ws.drop_last()[ws.len() - 1 - i] == ws[ws.len() - 1 - i]);
            }
        }
    }
}

} // verus!
