//! The protocol's typed messages and their specification-level models.
//!
//! Every message type has a ghost model (`...V`) reached through `View`, so
//! that the codec and the state machine can be specified over mathematical
//! values: character sequences for names, byte sequences for chunk data.

use vstd::prelude::*;

verus! {

/// Model of [`FileInfo`].
pub struct FileInfoV {
    pub name: Seq<char>,
    pub size: u64,
    pub mode: u32,
}

/// Model of [`Init`].
pub struct InitV {
    pub version: u32,
    pub features: Seq<Seq<char>>,
}

/// Model of [`ReceiveRequest`].
pub struct ReceiveRequestV {
    pub allow_directories: bool,
    pub allow_multiple: bool,
}

/// Model of [`SendRequest`].
pub struct SendRequestV {
    pub file_info: Option<FileInfoV>,
}

/// Model of [`OpenFile`].
pub struct OpenFileV {
    pub file_info: Option<FileInfoV>,
}

/// Model of [`FileOpened`].
pub struct FileOpenedV {
    pub continue_from: u64,
}

/// Model of [`Chunk`].
pub struct ChunkV {
    pub offset: u64,
    pub data: Seq<u8>,
}

/// Model of [`Content`].
pub enum ContentV {
    Init(InitV),
    Disconnect,
    ReceiveRequest(ReceiveRequestV),
    SendRequest(SendRequestV),
    AcceptTransfer,
    RejectTransfer,
    OpenFile(OpenFileV),
    FileOpened(FileOpenedV),
    Chunk(ChunkV),
    CloseFile,
    CloseTransfer,
}

/// The name, size and permission bits of one file or directory.  The bit
/// `0o40000` of `mode` marks a directory.
#[derive(Debug)]
pub struct FileInfo {
    pub name: String,
    pub size: u64,
    pub mode: u32,
}

impl View for FileInfo {
    type V = FileInfoV;

    open spec fn view(&self) -> FileInfoV {
        FileInfoV { name: self.name@, size: self.size, mode: self.mode }
    }
}

impl Clone for FileInfo {
    fn clone(&self) -> (r: Self)
        ensures
            r@ == self@,
    {
        FileInfo { name: self.name.clone(), size: self.size, mode: self.mode }
    }
}

/// Handshake message carrying the protocol version.
#[derive(Debug)]
pub struct Init {
    pub version: u32,
    pub features: Vec<String>,
}

impl View for Init {
    type V = InitV;

    open spec fn view(&self) -> InitV {
        InitV { version: self.version, features: self.features.deep_view() }
    }
}

/// Orderly teardown of the connection.
#[derive(Clone, Copy, Debug)]
pub struct Disconnect {}

/// Ask the peer to send us files.
#[derive(Clone, Copy, Debug)]
pub struct ReceiveRequest {
    pub allow_directories: bool,
    pub allow_multiple: bool,
}

impl View for ReceiveRequest {
    type V = ReceiveRequestV;

    open spec fn view(&self) -> ReceiveRequestV {
        ReceiveRequestV {
            allow_directories: self.allow_directories,
            allow_multiple: self.allow_multiple,
        }
    }
}

/// Offer the peer a transfer whose root is described by `file_info`.
#[derive(Debug)]
pub struct SendRequest {
    pub file_info: Option<FileInfo>,
}

impl View for SendRequest {
    type V = SendRequestV;

    open spec fn view(&self) -> SendRequestV {
        SendRequestV {
            file_info: match self.file_info {
                Some(ref f) => Some(f@),
                None => None,
            },
        }
    }
}

impl Clone for SendRequest {
    fn clone(&self) -> (r: Self)
        ensures
            r@ == self@,
    {
        SendRequest {
            file_info: match &self.file_info {
                Some(f) => Some(f.clone()),
                None => None,
            },
        }
    }
}

/// Accept an offered transfer.
#[derive(Clone, Copy, Debug)]
pub struct AcceptTransfer {}

/// Reject an offered transfer.
#[derive(Clone, Copy, Debug)]
pub struct RejectTransfer {}

/// Open the next file of the running transfer on the receiver.
#[derive(Debug)]
pub struct OpenFile {
    pub file_info: Option<FileInfo>,
}

impl View for OpenFile {
    type V = OpenFileV;

    open spec fn view(&self) -> OpenFileV {
        OpenFileV {
            file_info: match self.file_info {
                Some(ref f) => Some(f@),
                None => None,
            },
        }
    }
}

impl Clone for OpenFile {
    fn clone(&self) -> (r: Self)
        ensures
            r@ == self@,
    {
        OpenFile {
            file_info: match &self.file_info {
                Some(f) => Some(f.clone()),
                None => None,
            },
        }
    }
}

/// The receiver's answer to [`OpenFile`]: resume from this byte offset.
#[derive(Clone, Copy, Debug)]
pub struct FileOpened {
    pub continue_from: u64,
}

impl View for FileOpened {
    type V = FileOpenedV;

    open spec fn view(&self) -> FileOpenedV {
        FileOpenedV { continue_from: self.continue_from }
    }
}

/// One stretch of file data at an absolute offset.
#[derive(Debug)]
pub struct Chunk {
    pub offset: u64,
    pub data: Vec<u8>,
}

impl View for Chunk {
    type V = ChunkV;

    open spec fn view(&self) -> ChunkV {
        ChunkV { offset: self.offset, data: self.data@ }
    }
}

impl Clone for Chunk {
    fn clone(&self) -> (r: Self)
        ensures
            r@ == self@,
    {
        Chunk { offset: self.offset, data: vstd::slice::slice_to_vec(self.data.as_slice()) }
    }
}

/// Close the currently open file.
#[derive(Clone, Copy, Debug)]
pub struct CloseFile {}

/// Close the running transfer.
#[derive(Clone, Copy, Debug)]
pub struct CloseTransfer {}

/// The tagged union carried by one packet: exactly one protocol message.
#[derive(Debug)]
pub enum Content {
    Init(Init),
    Disconnect(Disconnect),
    ReceiveRequest(ReceiveRequest),
    SendRequest(SendRequest),
    AcceptTransfer(AcceptTransfer),
    RejectTransfer(RejectTransfer),
    OpenFile(OpenFile),
    FileOpened(FileOpened),
    Chunk(Chunk),
    CloseFile(CloseFile),
    CloseTransfer(CloseTransfer),
}

impl View for Content {
    type V = ContentV;

    open spec fn view(&self) -> ContentV {
        match self {
            Content::Init(m) => ContentV::Init(m@),
            Content::Disconnect(_) => ContentV::Disconnect,
            Content::ReceiveRequest(m) => ContentV::ReceiveRequest(m@),
            Content::SendRequest(m) => ContentV::SendRequest(m@),
            Content::AcceptTransfer(_) => ContentV::AcceptTransfer,
            Content::RejectTransfer(_) => ContentV::RejectTransfer,
            Content::OpenFile(m) => ContentV::OpenFile(m@),
            Content::FileOpened(m) => ContentV::FileOpened(m@),
            Content::Chunk(m) => ContentV::Chunk(m@),
            Content::CloseFile(_) => ContentV::CloseFile,
            Content::CloseTransfer(_) => ContentV::CloseTransfer,
        }
    }
}

} // verus!
