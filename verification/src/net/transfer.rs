//! Moving files between the two machines in a session.
//!
//! A remote desktop that cannot carry a file is one people work around by emailing things to
//! themselves. This is the smallest thing that removes that: one folder on each machine, and a
//! way to put something in the other one's.
//!
//! # What this module is
//!
//! A state machine and nothing else. It owns no socket, opens no file, starts no thread and
//! never blocks: a caller hands it the messages that arrived and asks it what to send, and it
//! answers with one message or one piece of disk work at a time. That keeps the decision about
//! when to send, which is a decision about whether the picture stutters, outside it with the
//! loop that knows.
//!
//! # How a file moves
//!
//! The sender offers, the receiver answers, and then chunks flow. The receiver writes each chunk
//! straight to its place in the file rather than holding it, so one arriving out of order costs
//! a seek and no memory, and reports what it has as two numbers: the length of the unbroken run
//! from the start, and a bitmap of the chunks after it. The sender sends what those two numbers
//! say is missing, and stops when the run reaches the end.
//!
//! # What it refuses
//!
//! A name that is not a name. Everything that arrives is written into one folder, so the worst a
//! hostile peer can do is overwrite something it previously sent, which is why a file lands
//! under a temporary name and is only put in place once it is whole.

use std::collections::VecDeque;

use vstd::prelude::*;
use vstd::string::*;
use vstd::utf8::encode_utf8;

use crate::net::ack::{bit_set, lemma_marked};
use crate::net::packet::MAX_PLAINTEXT_SIZE;

verus! {

/// The most of a file that one packet carries, in bytes: what a packet holds less a channel, a
/// message type, a transfer and an index.
pub const MAX_FILE_PAYLOAD: usize = 1166;

/// How many bytes one chunk carries.
///
/// Every chunk but the last is exactly this, which is what lets a receiver write a chunk that
/// arrived out of order straight to `index * CHUNK` without holding anything.
pub const CHUNK: usize = MAX_FILE_PAYLOAD;

/// How far ahead of what the receiver has confirmed the sender will get.
///
/// Thirty-two, because that is what one report describes: sending past the window would be
/// sending chunks the next report has no way to say arrived, and the sender would resend them on
/// the strength of its own ignorance.
pub const WINDOW: u32 = 32;

/// How long a sender waits for a report before sending the window again, in microseconds.
///
/// Reports are the only thing that moves a transfer forward, so one lost report would otherwise
/// stall the whole file until the session ended.
pub const REPORT_PATIENCE_US: u64 = 600_000;

/// How often the receiver says what it has.
///
/// Every eight chunks and at the end. More often would spend the return path on bookkeeping;
/// less often would leave the sender's window closed while it waited.
pub const REPORT_EVERY: u32 = 8;

/// The largest file this will accept, in bytes.
///
/// Two gigabytes. Not a protocol limit, since sizes are counted in sixty-four bits, but a limit
/// on what arrives unasked over a session meant for a screen.
pub const MAX_FILE_SIZE: u64 = 2_147_483_648;

/// Why a machine will not take a file it was offered.
#[derive(Debug, Clone, Copy, PartialEq, Eq, Structural)]
pub enum FileRefusal {
    /// It will not have it now.
    Declined,
    /// It is more than one transfer carries, or does not add up.
    TooLarge,
    /// It has nowhere to put it.
    NotWritable,
}

/// A file offered to the other machine.
#[derive(Debug)]
pub struct FileOffer {
    /// The transfer this would be.
    pub id: u32,
    /// How many bytes the file holds.
    pub size: u64,
    /// How many chunks it is cut into.
    pub chunks: u32,
    /// What it is called.
    pub name: String,
}

/// What the other machine said to an offer.
#[derive(Debug, Clone, Copy, PartialEq, Eq, Structural)]
pub struct FileAnswer {
    /// The transfer it is about.
    pub id: u32,
    /// Whether the file is wanted.
    pub accepted: bool,
    /// Why not, where it is not.
    pub refusal: FileRefusal,
}

/// A piece of a file.
#[derive(Debug)]
pub struct FileChunk {
    /// The transfer it belongs to.
    pub id: u32,
    /// Which chunk of the file it is.
    pub index: u32,
    /// Its bytes.
    pub payload: Vec<u8>,
}

/// What a receiver has of a file.
#[derive(Debug, Clone, Copy, PartialEq, Eq, Structural)]
pub struct FileReport {
    /// The transfer it is about.
    pub id: u32,
    /// How many chunks it has in an unbroken run from the start.
    pub have: u32,
    /// Which of the chunks after the first missing one it also has.
    pub arrived: u32,
}

/// A file on offer.
#[derive(Debug)]
pub struct FileEntry {
    /// How many bytes it holds.
    pub size: u64,
    /// What it is called.
    pub name: String,
}

/// What a machine is offering.
#[derive(Debug)]
pub struct FileListing {
    /// Whether there was more than fits in one message.
    pub more: bool,
    /// The files, newest first.
    pub files: Vec<FileEntry>,
}

/// A request for one of the files a machine listed.
#[derive(Debug)]
pub struct FileAsk {
    /// Which.
    pub name: String,
}

/// A message on the file channel.
#[derive(Debug)]
pub enum FileMessage {
    /// A file is offered.
    Offer(FileOffer),
    /// An offer is answered.
    Answer(FileAnswer),
    /// A piece of a file.
    Chunk(FileChunk),
    /// What a receiver has.
    Report(FileReport),
    /// What is on offer is asked for.
    List,
    /// What is on offer.
    Listing(FileListing),
    /// A file is asked for.
    Ask(FileAsk),
}

/// Why a transfer could not be begun.
#[derive(Debug)]
pub enum FileError {
    /// The path named nothing that could be sent.
    NotAFile {
        /// What was asked for.
        path: String,
    },
    /// More bytes than this will move in one transfer.
    TooLarge {
        /// How large the file is.
        size: u64,
    },
    /// A transfer was already running in that direction.
    Busy,
    /// The file would not open.
    Unopened,
}

/// What looking at a path found.
#[derive(Debug, Clone, Copy, PartialEq, Eq, Structural)]
pub enum Looked {
    /// It would not open.
    Unopened,
    /// Something that is not a file.
    NotAFile,
    /// A file.
    File {
        /// How many bytes it holds.
        size: u64,
    },
}

/// How far along a transfer is, for a window to show.
#[derive(Debug)]
pub struct Progress {
    /// What the file is called.
    pub name: String,
    /// How many bytes it holds.
    pub size: u64,
    /// How many of them have moved.
    pub moved: u64,
    /// Whether this machine is the one sending.
    pub sending: bool,
    /// Whether it is finished.
    pub done: bool,
}

// ---------------------------------------------------------------------------
// How a file is cut.

/// How many chunks a file of `size` bytes is cut into.
pub open spec fn chunk_count(size: int) -> int {
    (size + CHUNK - 1) / CHUNK as int
}

/// Where chunk `index` begins.
pub open spec fn chunk_offset(index: int) -> int {
    index * CHUNK
}

/// How long chunk `index` of a file of `size` bytes is.
pub open spec fn chunk_length(size: int, index: int) -> int {
    if size - chunk_offset(index) < CHUNK {
        size - chunk_offset(index)
    } else {
        CHUNK as int
    }
}

/// How many bytes an unbroken run of chunks accounts for.
pub open spec fn spec_moved(have: int, size: int) -> int {
    if chunk_offset(have) < size {
        chunk_offset(have)
    } else {
        size
    }
}

/// Every chunk of a file lies inside it and holds something, every one but the last is full, and
/// each begins where the one before it ends.
pub proof fn chunks_tile_the_file(size: int, index: int)
    requires
        0 <= size,
        0 <= index < chunk_count(size),
    ensures
        0 <= chunk_offset(index) < size,
        0 < chunk_length(size, index) <= CHUNK,
        index + 1 < chunk_count(size) ==> chunk_length(size, index) == CHUNK && chunk_offset(
            index + 1,
        ) == chunk_offset(index) + chunk_length(size, index),
        index + 1 == chunk_count(size) ==> chunk_offset(index) + chunk_length(size, index) == size,
{
    assert(CHUNK == 1166);
    assert(chunk_offset(index) == 1166 * index);
    assert(chunk_offset(index + 1) == 1166 * index + 1166);
}

/// How many chunks a file of this many bytes is cut into.
fn chunks_for(size: u64) -> (chunks: u32)
    requires
        size <= MAX_FILE_SIZE,
    ensures
        chunks == chunk_count(size as int),
{
    ((size + (CHUNK as u64 - 1)) / CHUNK as u64) as u32
}

/// How many bytes an unbroken run of chunks accounts for, capped at the file's length.
fn moved(have: u32, size: u64) -> (bytes: u64)
    ensures
        bytes == spec_moved(have as int, size as int),
{
    assert(have * CHUNK <= 0xffff_ffff * 1166) by (nonlinear_arith)
        requires
            have <= 0xffff_ffff,
            CHUNK == 1166,
    ;
    let run: u64 = have as u64 * CHUNK as u64;
    if run < size {
        run
    } else {
        size
    }
}

/// Whether a name can be written down as a file of one folder: it says something, names no other
/// folder, and is neither of the two relative ones.
pub open spec fn is_plain(name: Seq<char>) -> bool {
    &&& name.len() > 0
    &&& name != seq!['.']
    &&& name != seq!['.', '.']
    &&& forall|i: int| 0 <= i < name.len() ==> #[trigger] name[i] != '/' && name[i] != '\\'
}

/// Returns whether a name can be written down as a file of one folder.
#[must_use]
pub fn plain_file_name(name: &str) -> (plain: bool)
    ensures
        plain == is_plain(name@),
{
    let len: usize = name.unicode_len();
    if len == 0 {
        return false;
    }
    let mut dots: bool = true;
    let mut i: usize = 0;
    while i < len
        invariant
            i <= len,
            len == name@.len(),
            dots == (forall|j: int| 0 <= j < i ==> name@[j] == '.'),
            forall|j: int| 0 <= j < i ==> #[trigger] name@[j] != '/' && name@[j] != '\\',
        decreases len - i,
    {
        let c: char = name.get_char(i);
        if c == '/' || c == '\\' {
            return false;
        }
        if c != '.' {
            dots = false;
        }
        i = i + 1;
    }
    proof {
        if dots && len == 1 {
            assert(name@ =~= seq!['.']);
        }
        if dots && len == 2 {
            assert(name@ =~= seq!['.', '.']);
        }
        if !dots {
            assert(name@ != seq!['.']) by {
                assert(seq!['.'][0] == '.');
            }
            assert(name@ != seq!['.', '.']) by {
                assert(seq!['.', '.'][0] == '.');
                assert(seq!['.', '.'][1] == '.');
            }
        }
    }
    !(dots && len <= 2)
}

// ---------------------------------------------------------------------------
// Receiving.

/// Whether `have` and `arrived`, as reports carry them, say that chunk `index` is there.
pub open spec fn got(have: int, arrived: u32, index: int) -> bool {
    index < have || (have < index < have + 32 && bit_set(arrived, index - have - 1))
}

/// A file being received, as the contracts see it.
pub struct ReceivingModel {
    /// The transfer.
    pub id: u32,
    /// What the file is called.
    pub name: Seq<char>,
    /// How many bytes it holds.
    pub size: int,
    /// How many chunks it is cut into.
    pub chunks: int,
    /// How many chunks are there in an unbroken run from the start.
    pub have: int,
    /// Which of the chunks after the first missing one are there.
    pub arrived: u32,
    /// How many chunks have landed since the last report.
    pub since: int,
    /// Whether the file has been put in its place.
    pub done: bool,
}

impl ReceivingModel {
    /// Whether chunk `index` is known to be on disk.
    pub open spec fn holds(self, index: int) -> bool {
        got(self.have, self.arrived, index)
    }

    /// Whether every chunk is.
    pub open spec fn whole(self) -> bool {
        self.have >= self.chunks
    }

    /// Whether a chunk is one to write down: of this file, and not settled already.
    pub open spec fn wants(self, id: u32, index: u32) -> bool {
        self.id == id && self.have <= index < self.chunks && !self.done
    }

    /// Whether a chunk is one of this file that is settled already.
    pub open spec fn settled(self, id: u32, index: u32) -> bool {
        self.id == id && index < self.have
    }

    /// Whether a chunk that lands calls for a report at once: it completes the file, it left a
    /// gap, or it is the last of its batch. `after` is what is there once it has landed.
    pub open spec fn reports(self, index: u32, after: ReceivingModel) -> bool {
        after.whole() || self.have < index < self.have + 32 || self.since + 1 >= REPORT_EVERY
    }

    /// Whether `after` is this transfer once chunk `index` has been written down: the chunk is
    /// there too, if it is near enough to be spoken of, and nothing else has changed.
    pub open spec fn landing(self, index: u32, after: ReceivingModel) -> bool {
        &&& after.id == self.id && after.name == self.name && after.size == self.size
            && after.chunks == self.chunks && after.done == self.done
        &&& self.have <= after.have
        &&& forall|i: int|
            0 <= i ==> #[trigger] after.holds(i) == (self.holds(i) || (i == index && index
                < self.have + 32))
        &&& after.since == if self.reports(index, after) {
            0
        } else {
            self.since + 1
        }
    }

    /// What a report says of this transfer.
    pub open spec fn report(self) -> FileReport {
        FileReport { id: self.id, have: self.have as u32, arrived: self.arrived }
    }

    /// What is true of every transfer.
    pub open spec fn wf(self) -> bool {
        &&& 0 <= self.size <= MAX_FILE_SIZE
        &&& self.chunks == chunk_count(self.size)
        &&& 0 <= self.have <= self.chunks
        &&& forall|i: int| #[trigger] self.holds(i) ==> i < self.chunks
        &&& !bit_set(self.arrived, 31)
        &&& 0 <= self.since < REPORT_EVERY
        &&& self.done ==> self.whole()
    }
}

/// What shifting a bitmap down by one place does to it.
proof fn lemma_shifted_down(bitmap: u32)
    ensures
        forall|k: int|
            #![trigger bit_set(bitmap >> 1u32, k)]
            0 <= k < 31 ==> bit_set(bitmap >> 1u32, k) == bit_set(bitmap, k + 1),
        !bit_set(bitmap >> 1u32, 31),
        bit_set(bitmap, 0) == (bitmap & 1 != 0),
        bitmap & 1 != 0 ==> bitmap >> 1u32 < bitmap,
{
    assert forall|k: int| #![trigger bit_set(bitmap >> 1u32, k)] 0 <= k < 31 implies bit_set(
        bitmap >> 1u32,
        k,
    ) == bit_set(bitmap, k + 1) by {
        let j = k as u32;
        assert((bitmap >> 1u32) & (1u32 << j) != 0 <==> bitmap & (1u32 << ((j + 1) as u32)) != 0)
            by (bit_vector)
            requires
                j < 31,
        ;
    }
    assert({
        &&& (bitmap >> 1u32) & (1u32 << 31) == 0
        &&& (bitmap & (1u32 << 0) != 0 <==> bitmap & 1 != 0)
        &&& (bitmap & 1 != 0 ==> bitmap >> 1u32 < bitmap)
    }) by (bit_vector);
}

/// A file this machine is receiving.
#[derive(Debug)]
struct Receiving {
    id: u32,
    name: String,
    size: u64,
    chunks: u32,
    have: u32,
    arrived: u32,
    since: u32,
    done: bool,
}

impl View for Receiving {
    type V = ReceivingModel;

    closed spec fn view(&self) -> ReceivingModel {
        ReceivingModel {
            id: self.id,
            name: self.name@,
            size: self.size as int,
            chunks: self.chunks as int,
            have: self.have as int,
            arrived: self.arrived,
            since: self.since as int,
            done: self.done,
        }
    }
}

impl Receiving {
    /// Counts a chunk that has been written down, and says whether that calls for a report.
    fn land(&mut self, index: u32) -> (report: bool)
        requires
            old(self)@.wf(),
            old(self)@.have <= index < old(self)@.chunks,
        ensures
            final(self)@.wf(),
            old(self)@.landing(index, final(self)@),
            report == old(self)@.reports(index, final(self)@),
    {
        let ghost before = self@;
        let step: u32 = index - self.have;
        let mut gap: bool = false;
        proof {
            assert(self.chunks <= 2_000_000);
        }
        if step == 0 {
            self.have = self.have + 1;
            assert forall|i: int| 0 <= i implies (i < self.have || (self.have <= i < self.have + 31
                && bit_set(self.arrived, i - self.have))) == (before.holds(i) || i == index) by {}
            // Everything the bitmap already knew about now sits at the front of the run, so walk
            // it forward and shift what is left.
            while self.arrived & 1 != 0
                invariant
                    before.wf(),
                    index == before.have,
                    self.id == before.id,
                    self.name@ == before.name,
                    self.size == before.size,
                    self.chunks == before.chunks,
                    self.since == before.since,
                    self.done == before.done,
                    self.chunks <= 2_000_000,
                    before.have < self.have <= self.chunks,
                    !bit_set(self.arrived, 31),
                    forall|i: int|
                        0 <= i ==> (i < self.have || (self.have <= i < self.have + 31 && bit_set(
                            self.arrived,
                            i - self.have,
                        ))) == (#[trigger] before.holds(i) || i == index),
                decreases self.arrived,
            {
                let ghost was = self.arrived;
                let ghost at = self.have as int;
                proof {
                    lemma_shifted_down(was);
                    assert(before.holds(at));
                }
                self.have = self.have + 1;
                self.arrived = self.arrived >> 1u32;
                assert forall|i: int| 0 <= i implies (i < self.have || (self.have <= i < self.have
                    + 31 && bit_set(self.arrived, i - self.have))) == (#[trigger] before.holds(i)
                    || i == index) by {
                    if self.have <= i < self.have + 30 {
                        assert(bit_set(was >> 1u32, i - self.have) == bit_set(was, i - at));
                    }
                    if i == self.have + 30 {
                        assert(bit_set(was >> 1u32, 30) == bit_set(was, 31));
                    }
                }
            }
            let ghost was = self.arrived;
            proof {
                lemma_shifted_down(was);
            }
            self.arrived = self.arrived >> 1u32;
            assert forall|i: int| 0 <= i implies #[trigger] self@.holds(i) == (before.holds(i) || i
                == index) by {
                if self.have < i < self.have + 32 {
                    assert(bit_set(was >> 1u32, i - self.have - 1) == bit_set(was, i - self.have));
                }
            }
        } else if step < 32 {
            let ghost was = self.arrived;
            self.arrived = self.arrived | (1u32 << (step - 1));
            gap = true;
            assert forall|k: int| 0 <= k < 32 implies #[trigger] bit_set(self.arrived, k) == (
            bit_set(was, k) || k == step - 1) by {
                lemma_marked(was, (step - 1) as u32, k as u32);
            }
            assert forall|i: int| 0 <= i implies #[trigger] self@.holds(i) == (before.holds(i) || i
                == index) by {}
        }
        assert forall|i: int| #[trigger]
            got(self.have as int, self.arrived, i) implies i < self.chunks by {
            if i >= 0 {
                assert(self@.holds(i));
            }
        }
        self.since = self.since + 1;
        let whole: bool = self.have >= self.chunks;
        if whole || gap || self.since >= REPORT_EVERY {
            self.since = 0;
            return true;
        }
        false
    }
}

// ---------------------------------------------------------------------------
// Sending.

/// A file being sent, as the contracts see it.
pub struct SendingModel {
    /// The transfer.
    pub id: u32,
    /// What the file is called.
    pub name: Seq<char>,
    /// How many bytes it holds.
    pub size: int,
    /// How many chunks it is cut into.
    pub chunks: int,
    /// Whether the far side has said it will take it.
    pub accepted: bool,
    /// How many chunks the receiver has in an unbroken run from the start.
    pub have: int,
    /// Which of the chunks after the first missing one it also has.
    pub arrived: u32,
    /// The next chunk to send that has never been sent.
    pub fresh: int,
    /// Chunks the newest report says are still missing.
    pub again: Seq<u32>,
    /// When the last report arrived, or when the offer went out.
    pub heard: int,
}

/// The chunks from `have` up to `upto` that a report of `have` and `arrived` leaves missing. The
/// first is the one the run stopped at, which is missing by definition.
pub open spec fn missing(have: int, arrived: u32, upto: int) -> Seq<u32>
    decreases upto - have,
{
    if upto <= have + 1 {
        seq![have as u32]
    } else if got(have, arrived, upto - 1) {
        missing(have, arrived, upto - 1)
    } else {
        missing(have, arrived, upto - 1).push((upto - 1) as u32)
    }
}

impl SendingModel {
    /// Where the window ends: no chunk from here on is sent yet.
    pub open spec fn window_end(self) -> int {
        if self.have + WINDOW < self.chunks {
            self.have + WINDOW
        } else {
            self.chunks
        }
    }

    /// Whether nothing is left to send and the report that would change that is overdue.
    pub open spec fn stalled(self, now: int) -> bool {
        &&& self.again.len() == 0
        &&& self.fresh >= self.window_end()
        &&& now - self.heard >= REPORT_PATIENCE_US
    }

    /// The transfer with its window wound back, where it has stalled.
    pub open spec fn unstalled(self, now: int) -> SendingModel {
        if self.stalled(now) {
            SendingModel { fresh: self.have, heard: now, ..self }
        } else {
            self
        }
    }

    /// The chunk to send next: one the receiver misses, or else the next that has never been
    /// sent, as far as the window goes.
    pub open spec fn due(self, now: int) -> Option<int> {
        let ready = self.unstalled(now);
        if !self.accepted {
            None
        } else if ready.again.len() > 0 {
            Some(ready.again[0] as int)
        } else if ready.fresh < ready.window_end() {
            Some(ready.fresh)
        } else {
            None
        }
    }

    /// The transfer once that chunk has been handed out.
    pub open spec fn handing_out(self, now: int) -> SendingModel {
        let ready = self.unstalled(now);
        if !self.accepted {
            self
        } else if ready.again.len() > 0 {
            SendingModel { again: ready.again.drop_first(), ..ready }
        } else if ready.fresh < ready.window_end() {
            SendingModel { fresh: ready.fresh + 1, ..ready }
        } else {
            ready
        }
    }

    /// Whether a report is about this transfer and no older than what is known.
    pub open spec fn heeds(self, report: FileReport) -> bool {
        self.id == report.id && self.have <= report.have
    }

    /// The transfer after a report, or nothing once the receiver has it all.
    pub open spec fn hearing(self, report: FileReport, now: int) -> Option<SendingModel> {
        if report.have >= self.chunks {
            None
        } else {
            let heard = SendingModel {
                have: report.have as int,
                arrived: report.arrived,
                heard: now,
                ..self
            };
            let upto = if heard.fresh < heard.window_end() {
                heard.fresh
            } else {
                heard.window_end()
            };
            Some(SendingModel { again: missing(heard.have, heard.arrived, upto), ..heard })
        }
    }

    /// Whether anything of the transfer is still to come.
    pub open spec fn going(self) -> bool {
        !self.accepted || self.have < self.chunks
    }

    /// What is true of every transfer.
    pub open spec fn wf(self) -> bool {
        &&& 0 <= self.size <= MAX_FILE_SIZE
        &&& self.chunks == chunk_count(self.size)
        &&& 0 <= self.have <= self.chunks
        &&& 0 <= self.fresh <= self.chunks
        &&& forall|i: int|
            0 <= i < self.again.len() ==> (#[trigger] self.again[i]) < self.window_end()
    }
}

/// What a list of missing chunks holds: chunks of the window only, and each of them exactly if
/// the report does not have it.
pub proof fn the_missing_are_what_the_report_lacks(have: int, arrived: u32, upto: int)
    requires
        0 <= have,
        upto <= have + 32,
        upto <= u32::MAX,
        have < u32::MAX,
    ensures
        forall|i: int|
            0 <= i < missing(have, arrived, upto).len() ==> have <= (#[trigger] missing(
                have,
                arrived,
                upto,
            )[i]) && (missing(have, arrived, upto)[i] < upto || missing(have, arrived, upto)[i]
                == have),
        forall|index: int|
            have <= index < upto ==> (#[trigger] got(have, arrived, index) || missing(
                have,
                arrived,
                upto,
            ).contains(index as u32)),
        forall|index: int|
            have <= index < upto && #[trigger] got(have, arrived, index) ==> !missing(
                have,
                arrived,
                upto,
            ).contains(index as u32),
    decreases upto - have,
{
    let list = missing(have, arrived, upto);
    if upto <= have + 1 {
        assert(list[0] == have);
        assert(list.contains(have as u32));
    } else {
        let rest = missing(have, arrived, upto - 1);
        the_missing_are_what_the_report_lacks(have, arrived, upto - 1);
        assert forall|index: int| have <= index < upto implies #[trigger] got(have, arrived, index)
            || list.contains(index as u32) by {
            if !got(have, arrived, index) {
                if index == upto - 1 {
                    assert(list.last() == index);
                } else {
                    assert(rest.contains(index as u32));
                    let i = choose|i: int| 0 <= i < rest.len() && rest[i] == index as u32;
                    assert(list[i] == index as u32);
                }
            }
        }
        assert forall|index: int| have <= index < upto && #[trigger] got(
            have,
            arrived,
            index,
        ) implies !list.contains(index as u32) by {
            if list.contains(index as u32) {
                let i = choose|i: int| 0 <= i < list.len() && list[i] == index as u32;
                if i < rest.len() {
                    assert(rest[i] == index as u32);
                    assert(rest.contains(index as u32));
                }
            }
        }
    }
}

/// A lost report stalls nothing for good: once patience has run out, a transfer that is accepted
/// and not finished always has a chunk to send.
pub proof fn a_lost_report_does_not_end_a_transfer(sending: SendingModel, now: int)
    requires
        sending.wf(),
        sending.accepted,
        sending.have < sending.chunks,
        now - sending.heard >= REPORT_PATIENCE_US,
    ensures
        sending.due(now) is Some,
{
}

/// Sending the window again gets a transfer past lost chunks and lost reports alike: the first
/// chunk of the window is either one the receiver still wants, or one it answers with a report
/// that is further on than what the sender has heard.
pub proof fn a_repeated_window_moves_the_transfer(
    sending: SendingModel,
    files: FilesModel,
    file: ReceivingModel,
    payload: Vec<u8>,
    now: int,
)
    requires
        sending.wf(),
        files.receiving == Some(file),
        file.wf(),
        file.id == sending.id,
        file.chunks == sending.chunks,
        sending.have < sending.chunks,
        sending.have <= file.have,
    ensures
        ({
            let chunk = FileChunk { id: sending.id, index: sending.have as u32, payload };
            let (after, task) = files.arriving(FileMessage::Chunk(chunk), now);
            ||| task == (FileTask::Write {
                chunk,
                offset: chunk_offset(sending.have) as u64,
            }) && !file.holds(sending.have)
            ||| after.outgoing == files.outgoing.push(FileMessage::Report(file.report()))
                && sending.heeds(file.report()) && file.report().have > sending.have
        }),
{
}

/// A chunk to read and send.
#[derive(Debug, Clone, Copy, PartialEq, Eq, Structural)]
pub struct ChunkDue {
    /// The transfer it belongs to.
    pub id: u32,
    /// Which chunk it is.
    pub index: u32,
    /// Where in the file it begins.
    pub offset: u64,
    /// How many bytes it holds.
    pub length: usize,
}

/// A file this machine is sending.
#[derive(Debug)]
struct Sending {
    id: u32,
    name: String,
    size: u64,
    chunks: u32,
    accepted: bool,
    have: u32,
    arrived: u32,
    fresh: u32,
    again: VecDeque<u32>,
    heard_us: u64,
}

impl View for Sending {
    type V = SendingModel;

    closed spec fn view(&self) -> SendingModel {
        SendingModel {
            id: self.id,
            name: self.name@,
            size: self.size as int,
            chunks: self.chunks as int,
            accepted: self.accepted,
            have: self.have as int,
            arrived: self.arrived,
            fresh: self.fresh as int,
            again: self.again@,
            heard: self.heard_us as int,
        }
    }
}

impl Sending {
    /// Returns where the window ends.
    fn window_end(&self) -> (end: u32)
        requires
            self@.wf(),
        ensures
            end == self@.window_end(),
    {
        assert(self.chunks <= 2_000_000);
        if self.have + WINDOW < self.chunks {
            self.have + WINDOW
        } else {
            self.chunks
        }
    }

    /// Takes the next chunk to send, if one is due.
    fn next(&mut self, now_us: u64) -> (due: Option<ChunkDue>)
        requires
            old(self)@.wf(),
        ensures
            final(self)@.wf(),
            final(self)@ == old(self)@.handing_out(now_us as int),
            match old(self)@.due(now_us as int) {
                None => due is None,
                Some(index) => due == Some(
                    ChunkDue {
                        id: old(self)@.id,
                        index: index as u32,
                        offset: chunk_offset(index) as u64,
                        length: chunk_length(old(self)@.size, index) as usize,
                    },
                ) && 0 <= index < old(self)@.chunks,
            },
    {
        if !self.accepted {
            return None;
        }
        // A report that never came. Sending the window again is what gets a transfer past a lost
        // report, which would otherwise stop it for good.
        if self.again.len() == 0 && self.fresh >= self.window_end() && now_us.saturating_sub(
            self.heard_us,
        ) >= REPORT_PATIENCE_US {
            self.fresh = self.have;
            self.heard_us = now_us;
        }
        let ghost ready = self@;
        assert(ready == old(self)@.unstalled(now_us as int));
        let index: u32 = match self.again.pop_front() {
            Some(index) => index,
            None => if self.fresh < self.window_end() {
                let index: u32 = self.fresh;
                self.fresh = self.fresh + 1;
                index
            } else {
                return None;
            },
        };
        assert(self@.again =~= (if ready.again.len() > 0 {
            ready.again.drop_first()
        } else {
            ready.again
        }));
        proof {
            chunks_tile_the_file(self.size as int, index as int);
        }
        let offset: u64 = index as u64 * CHUNK as u64;
        let left: u64 = self.size - offset;
        let length: usize = if left < CHUNK as u64 {
            left as usize
        } else {
            CHUNK
        };
        Some(ChunkDue { id: self.id, index, offset, length })
    }

    /// Records what the receiver says it has, and lines up whatever is missing. Returns whether
    /// it has everything.
    fn hear(&mut self, report: &FileReport, now_us: u64) -> (complete: bool)
        requires
            old(self)@.wf(),
            old(self)@.heeds(*report),
        ensures
            complete == (old(self)@.hearing(*report, now_us as int) is None),
            !complete ==> final(self)@.wf(),
            !complete ==> Some(final(self)@) == old(self)@.hearing(*report, now_us as int),
    {
        self.have = report.have;
        self.arrived = report.arrived;
        self.heard_us = now_us;
        self.again.clear();
        if self.have >= self.chunks {
            return true;
        }
        let end: u32 = self.window_end();
        let upto: u32 = if self.fresh < end {
            self.fresh
        } else {
            end
        };
        // Everything inside the window whose bit is clear and which has already been sent once.
        // The first is the one the run stopped at, which is missing by definition.
        self.again.push_back(self.have);
        let ghost heard = self@;
        let mut index: u32 = self.have + 1;
        assert(self.again@ =~= missing(self.have as int, self.arrived, index as int));
        while index < upto
            invariant
                self@ == (SendingModel { again: self.again@, ..heard }),
                self.have < index,
                index <= upto || index == self.have + 1,
                upto <= self.have + 32,
                upto <= self.chunks,
                self.chunks <= 2_000_000,
                self.again@ == missing(self.have as int, self.arrived, index as int),
            decreases upto - index,
        {
            if self.arrived & (1u32 << (index - self.have - 1)) == 0 {
                self.again.push_back(index);
            }
            index = index + 1;
        }
        proof {
            the_missing_are_what_the_report_lacks(self.have as int, self.arrived, index as int);
            assert(missing(self.have as int, self.arrived, index as int) == missing(
                self.have as int,
                self.arrived,
                upto as int,
            ));
        }
        false
    }
}

// ---------------------------------------------------------------------------
// Both directions.

/// What the caller has to do about a message, beyond what has been queued in reply.
#[derive(Debug)]
pub enum FileTask {
    /// Nothing.
    Nothing,
    /// Make an empty file for this offer under its temporary name, and say in
    /// [`Files::created`] whether that worked.
    Create(FileOffer),
    /// Write a chunk down at this place in the file being received, and say so in
    /// [`Files::wrote`].
    Write {
        /// The chunk.
        chunk: FileChunk,
        /// Where it goes.
        offset: u64,
    },
    /// Read the folder and hand what is in it to [`Files::listed`].
    ReadFolder,
    /// Show what the far machine is offering.
    Show(FileListing),
    /// Look at the file of this name in the folder and hand it to [`Files::send`].
    Send(FileAsk),
}

/// What [`Files::step`] gives the caller to send.
#[derive(Debug)]
pub enum Outgoing {
    /// Nothing this turn.
    Nothing,
    /// A message that was waiting.
    Message(FileMessage),
    /// A chunk to read from the file being sent.
    Chunk(ChunkDue),
}

/// Why an offer is refused before anything is written, if it is: a file is on its way already,
/// or the offer is too large or does not add up.
pub open spec fn refusal_of(receiving: Option<ReceivingModel>, offer: FileOffer) -> Option<
    FileRefusal,
> {
    if receiving matches Some(file) && !file.done {
        Some(FileRefusal::Declined)
    } else if offer.size > MAX_FILE_SIZE || offer.chunks != chunk_count(offer.size as int) {
        Some(FileRefusal::TooLarge)
    } else {
        None
    }
}

/// The answer that refuses an offer.
pub open spec fn refusing(offer: FileOffer, refusal: FileRefusal) -> FileMessage {
    FileMessage::Answer(FileAnswer { id: offer.id, accepted: false, refusal })
}

/// The answer that takes an offer.
pub open spec fn accepting(offer: FileOffer) -> FileMessage {
    FileMessage::Answer(
        FileAnswer { id: offer.id, accepted: true, refusal: FileRefusal::Declined },
    )
}

/// The transfer that an accepted offer begins.
pub open spec fn begun(offer: FileOffer) -> ReceivingModel {
    ReceivingModel {
        id: offer.id,
        name: offer.name@,
        size: offer.size as int,
        chunks: offer.chunks as int,
        have: 0,
        arrived: 0,
        since: 0,
        done: false,
    }
}

/// The id after `id`: zero is never one.
pub open spec fn following_id(id: u32) -> u32 {
    if id == u32::MAX {
        1
    } else {
        (id + 1) as u32
    }
}

/// Both directions of file movement for one session, as the contracts see them.
pub struct FilesModel {
    /// The file going out.
    pub sending: Option<SendingModel>,
    /// The file coming in.
    pub receiving: Option<ReceivingModel>,
    /// Messages waiting for the caller's next turn.
    pub outgoing: Seq<FileMessage>,
    /// The id of the next offer.
    pub next_id: u32,
}

impl FilesModel {
    /// Whether a file is going out.
    pub open spec fn busy(self) -> bool {
        self.sending matches Some(file) && file.going()
    }

    /// The same with a message put on the queue.
    pub open spec fn queueing(self, message: FileMessage) -> FilesModel {
        FilesModel { outgoing: self.outgoing.push(message), ..self }
    }

    /// What is true of every session's files.
    pub open spec fn wf(self) -> bool {
        &&& self.sending matches Some(file) ==> file.wf()
        &&& self.receiving matches Some(file) ==> file.wf()
        &&& self.next_id > 0
    }

    /// What an answer does.
    pub open spec fn answered(self, answer: FileAnswer, now: int) -> FilesModel {
        match self.sending {
            Some(file) if file.id == answer.id => FilesModel {
                sending: if answer.accepted {
                    Some(SendingModel { accepted: true, heard: now, ..file })
                } else {
                    None
                },
                ..self
            },
            _ => self,
        }
    }

    /// What a report does.
    pub open spec fn reported(self, report: FileReport, now: int) -> FilesModel {
        match self.sending {
            Some(file) if file.heeds(report) => FilesModel {
                sending: file.hearing(report, now),
                ..self
            },
            _ => self,
        }
    }

    /// Whether a chunk is to be written down.
    pub open spec fn wants(self, id: u32, index: u32) -> bool {
        self.receiving matches Some(file) && file.wants(id, index)
    }

    /// What a message leads to, both in what is queued and known and in what is left to do.
    pub open spec fn arriving(self, message: FileMessage, now: int) -> (FilesModel, FileTask) {
        match message {
            FileMessage::Offer(offer) => match refusal_of(self.receiving, offer) {
                Some(refusal) => (self.queueing(refusing(offer, refusal)), FileTask::Nothing),
                None => (self, FileTask::Create(offer)),
            },
            FileMessage::Answer(answer) => (self.answered(answer, now), FileTask::Nothing),
            FileMessage::Chunk(chunk) => if self.wants(chunk.id, chunk.index) {
                (
                    self,
                    FileTask::Write { chunk, offset: chunk_offset(chunk.index as int) as u64 },
                )
            } else if self.receiving matches Some(file) && file.settled(chunk.id, chunk.index) {
                (
                    self.queueing(FileMessage::Report(self.receiving->0.report())),
                    FileTask::Nothing,
                )
            } else {
                (self, FileTask::Nothing)
            },
            FileMessage::Report(report) => (self.reported(report, now), FileTask::Nothing),
            FileMessage::List => (self, FileTask::ReadFolder),
            FileMessage::Listing(listing) => (self, FileTask::Show(listing)),
            FileMessage::Ask(ask) => (self, FileTask::Send(ask)),
        }
    }
}

/// Both directions of file movement for one session.
///
/// Held by whichever loop reads the session's packets. One file may be moving each way at a
/// time; a second offer in the same direction is refused rather than queued, because a person
/// who sent two files meant to send two files and would rather be told the second did not go.
#[derive(Debug)]
pub struct Files {
    sending: Option<Sending>,
    receiving: Option<Receiving>,
    outgoing: VecDeque<FileMessage>,
    next_id: u32,
}

impl View for Files {
    type V = FilesModel;

    closed spec fn view(&self) -> FilesModel {
        FilesModel {
            sending: match self.sending {
                Some(file) => Some(file@),
                None => None,
            },
            receiving: match self.receiving {
                Some(file) => Some(file@),
                None => None,
            },
            outgoing: self.outgoing@,
            next_id: self.next_id,
        }
    }
}

impl Files {
    /// Makes the two directions for a session.
    #[must_use]
    pub fn new() -> (files: Self)
        ensures
            files@.wf(),
            files@ == (FilesModel {
                sending: None,
                receiving: None,
                outgoing: Seq::empty(),
                next_id: 1,
            }),
    {
        Files { sending: None, receiving: None, outgoing: VecDeque::new(), next_id: 1 }
    }

    /// Offers a file on this machine to the other one.
    ///
    /// `path` is what was asked for, `name` the last part of it where that can be written down,
    /// and `looked` what looking at it found. What comes back is the transfer's id, and the file
    /// itself starts moving once the far side answers.
    ///
    /// Returns [`FileError::Busy`] if one is already going that way, [`FileError::NotAFile`] for
    /// a path that is not a file with a name that could be written down at the other end,
    /// [`FileError::Unopened`] if the file would not open, and [`FileError::TooLarge`] past
    /// [`MAX_FILE_SIZE`], and looks at them in that order.
    pub fn send(
        &mut self,
        path: String,
        name: Option<String>,
        looked: Looked,
        now_us: u64,
    ) -> (result: Result<u32, FileError>)
        requires
            old(self)@.wf(),
        ensures
            final(self)@.wf(),
            result is Err ==> final(self)@ == old(self)@,
            if old(self)@.busy() {
                result == Err::<u32, FileError>(FileError::Busy)
            } else if name is None || !is_plain(name->0@) {
                result == Err::<u32, FileError>(FileError::NotAFile { path })
            } else {
                match looked {
                    Looked::Unopened => result == Err::<u32, FileError>(FileError::Unopened),
                    Looked::NotAFile => result == Err::<u32, FileError>(
                        FileError::NotAFile { path },
                    ),
                    Looked::File { size } => if size > MAX_FILE_SIZE {
                        result == Err::<u32, FileError>(FileError::TooLarge { size })
                    } else {
                        let id = old(self)@.next_id;
                        let chunks = chunk_count(size as int);
                        &&& result == Ok::<u32, FileError>(id)
                        &&& final(self)@.next_id == following_id(id)
                        &&& final(self)@.receiving == old(self)@.receiving
                        &&& final(self)@.outgoing == old(self)@.outgoing.push(
                            FileMessage::Offer(
                                FileOffer { id, size, chunks: chunks as u32, name: name->0 },
                            ),
                        )
                        &&& final(self)@.sending == Some(
                            SendingModel {
                                id,
                                name: name->0@,
                                size: size as int,
                                chunks,
                                accepted: false,
                                have: 0,
                                arrived: 0,
                                fresh: 0,
                                again: Seq::empty(),
                                heard: now_us as int,
                            },
                        )
                    },
                }
            },
    {
        let busy: bool = match &self.sending {
            Some(file) => !file.accepted || file.have < file.chunks,
            None => false,
        };
        if busy {
            return Err(FileError::Busy);
        }
        let name: String = match name {
            Some(name) => name,
            None => return Err(FileError::NotAFile { path }),
        };
        if !plain_file_name(name.as_str()) {
            return Err(FileError::NotAFile { path });
        }
        let size: u64 = match looked {
            Looked::Unopened => return Err(FileError::Unopened),
            // A directory opens on some platforms and reads as nothing, so a caller that pointed
            // at one would offer a file of no bytes rather than be told it had pointed at a
            // folder.
            Looked::NotAFile => return Err(FileError::NotAFile { path }),
            Looked::File { size } => size,
        };
        if size > MAX_FILE_SIZE {
            return Err(FileError::TooLarge { size });
        }
        let id: u32 = self.next_id;
        self.next_id = if id == u32::MAX {
            1
        } else {
            id + 1
        };
        let chunks: u32 = chunks_for(size);
        self.outgoing.push_back(
            FileMessage::Offer(FileOffer { id, size, chunks, name: name.clone() }),
        );
        self.sending = Some(
            Sending {
                id,
                name,
                size,
                chunks,
                accepted: false,
                have: 0,
                arrived: 0,
                fresh: 0,
                again: VecDeque::new(),
                heard_us: now_us,
            },
        );
        Ok(id)
    }

    /// Asks the other machine what it is offering.
    pub fn ask_for_listing(&mut self)
        requires
            old(self)@.wf(),
        ensures
            final(self)@.wf(),
            final(self)@ == old(self)@.queueing(FileMessage::List),
    {
        self.outgoing.push_back(FileMessage::List);
    }

    /// Asks the other machine to send one of the files it listed.
    pub fn fetch(&mut self, name: String)
        requires
            old(self)@.wf(),
        ensures
            final(self)@.wf(),
            final(self)@ == old(self)@.queueing(FileMessage::Ask(FileAsk { name })),
    {
        self.outgoing.push_back(FileMessage::Ask(FileAsk { name }));
    }

    /// Takes one message that arrived on the file channel.
    ///
    /// Anything it produces in reply is queued for [`Self::step`] rather than returned, so a
    /// caller reads its socket in one place and writes it in another. What is returned is what
    /// only the caller can do.
    pub fn arrived(&mut self, message: FileMessage, now_us: u64) -> (task: FileTask)
        requires
            old(self)@.wf(),
        ensures
            final(self)@.wf(),
            (final(self)@, task) == old(self)@.arriving(message, now_us as int),
    {
        match message {
            FileMessage::Offer(offer) => self.offered(offer),
            FileMessage::Answer(answer) => {
                self.answered(&answer, now_us);
                FileTask::Nothing
            },
            FileMessage::Chunk(chunk) => match self.place(&chunk) {
                Some(offset) => FileTask::Write { chunk, offset },
                None => {
                    self.repeat_report(&chunk);
                    FileTask::Nothing
                },
            },
            FileMessage::Report(report) => {
                self.reported(&report, now_us);
                FileTask::Nothing
            },
            FileMessage::List => FileTask::ReadFolder,
            FileMessage::Listing(listing) => FileTask::Show(listing),
            FileMessage::Ask(ask) => FileTask::Send(ask),
        }
    }

    /// Gives the next message or chunk to send.
    ///
    /// A caller loops until it gets nothing, pacing itself between packets: this will hand over
    /// chunks as fast as it is asked, and how fast that should be is a question about the
    /// picture, which this cannot see.
    pub fn step(&mut self, now_us: u64) -> (out: Outgoing)
        requires
            old(self)@.wf(),
        ensures
            final(self)@.wf(),
            final(self)@.receiving == old(self)@.receiving,
            final(self)@.next_id == old(self)@.next_id,
            if old(self)@.outgoing.len() > 0 {
                &&& out == Outgoing::Message(old(self)@.outgoing.first())
                &&& final(self)@.outgoing == old(self)@.outgoing.drop_first()
                &&& final(self)@.sending == old(self)@.sending
            } else {
                &&& final(self)@.outgoing == old(self)@.outgoing
                &&& match old(self)@.sending {
                    None => out == Outgoing::Nothing && final(self)@.sending is None,
                    Some(file) => {
                        &&& final(self)@.sending == Some(file.handing_out(now_us as int))
                        &&& match file.due(now_us as int) {
                            None => out == Outgoing::Nothing,
                            Some(index) => out == Outgoing::Chunk(
                                ChunkDue {
                                    id: file.id,
                                    index: index as u32,
                                    offset: chunk_offset(index) as u64,
                                    length: chunk_length(file.size, index) as usize,
                                },
                            ) && 0 <= index < file.chunks,
                        }
                    },
                }
            },
    {
        match self.outgoing.pop_front() {
            Some(ready) => {
                assert(self.outgoing@ =~= old(self)@.outgoing.drop_first());
                return Outgoing::Message(ready);
            },
            None => {},
        }
        match &mut self.sending {
            None => Outgoing::Nothing,
            Some(file) => match file.next(now_us) {
                Some(due) => Outgoing::Chunk(due),
                None => Outgoing::Nothing,
            },
        }
    }

    /// Answers an offer from the far machine, where it is refused before anything is written.
    fn offered(&mut self, offer: FileOffer) -> (task: FileTask)
        requires
            old(self)@.wf(),
        ensures
            final(self)@.wf(),
            match refusal_of(old(self)@.receiving, offer) {
                Some(refusal) => {
                    &&& final(self)@ == old(self)@.queueing(refusing(offer, refusal))
                    &&& task == FileTask::Nothing
                },
                None => final(self)@ == old(self)@ && task == FileTask::Create(offer),
            },
    {
        match self.refusal(&offer) {
            Some(refusal) => {
                self.refuse(&offer, refusal);
                FileTask::Nothing
            },
            None => FileTask::Create(offer),
        }
    }

    /// Returns why an offer is refused before anything is written, if it is.
    fn refusal(&self, offer: &FileOffer) -> (refusal: Option<FileRefusal>)
        ensures
            refusal == refusal_of(self@.receiving, *offer),
    {
        let arriving: bool = match &self.receiving {
            Some(file) => !file.done,
            None => false,
        };
        if arriving {
            Some(FileRefusal::Declined)
        } else if offer.size > MAX_FILE_SIZE || offer.chunks != chunks_for(offer.size) {
            Some(FileRefusal::TooLarge)
        } else {
            None
        }
    }

    /// Queues an answer that refuses an offer.
    fn refuse(&mut self, offer: &FileOffer, refusal: FileRefusal)
        requires
            old(self)@.wf(),
        ensures
            final(self)@.wf(),
            final(self)@ == old(self)@.queueing(refusing(*offer, refusal)),
    {
        self.outgoing.push_back(
            FileMessage::Answer(FileAnswer { id: offer.id, accepted: false, refusal }),
        );
    }

    /// Answers an offer for which the caller tried to make a file, and says whether the file is
    /// whole already.
    ///
    /// A file of nothing is whole the moment it is accepted, and never sends a chunk to notice
    /// that by.
    pub fn created(&mut self, offer: FileOffer, writable: bool) -> (whole: bool)
        requires
            old(self)@.wf(),
        ensures
            final(self)@.wf(),
            match refusal_of(old(self)@.receiving, offer) {
                Some(refusal) => final(self)@ == old(self)@.queueing(refusing(offer, refusal))
                    && !whole,
                None => if writable {
                    &&& final(self)@ == (FilesModel {
                        receiving: Some(begun(offer)),
                        ..old(self)@.queueing(accepting(offer))
                    })
                    &&& whole == (offer.size == 0)
                } else {
                    &&& final(self)@ == old(self)@.queueing(
                        refusing(offer, FileRefusal::NotWritable),
                    )
                    &&& !whole
                },
            },
    {
        match self.refusal(&offer) {
            Some(refusal) => {
                self.refuse(&offer, refusal);
                return false;
            },
            None => {},
        }
        if !writable {
            self.refuse(&offer, FileRefusal::NotWritable);
            return false;
        }
        self.outgoing.push_back(
            FileMessage::Answer(
                FileAnswer { id: offer.id, accepted: true, refusal: FileRefusal::Declined },
            ),
        );
        let whole: bool = offer.chunks == 0;
        proof {
            lemma_marked(0, 0, 31);
            assert forall|i: int| #[trigger] begun(offer).holds(i) implies i < offer.chunks by {
                if 0 < i < 32 {
                    lemma_marked(0, 0, (i - 1) as u32);
                }
            }
        }
        self.receiving = Some(
            Receiving {
                id: offer.id,
                name: offer.name,
                size: offer.size,
                chunks: offer.chunks,
                have: 0,
                arrived: 0,
                since: 0,
                done: false,
            },
        );
        whole
    }

    /// Records the far machine's answer to what this one offered.
    fn answered(&mut self, answer: &FileAnswer, now_us: u64)
        requires
            old(self)@.wf(),
        ensures
            final(self)@.wf(),
            final(self)@ == old(self)@.answered(*answer, now_us as int),
    {
        match &mut self.sending {
            Some(file) => {
                if file.id != answer.id {
                    return ;
                }
                if answer.accepted {
                    file.accepted = true;
                    file.heard_us = now_us;
                    return ;
                }
            },
            None => return ,
        }
        self.sending = None;
    }

    /// Returns where a chunk goes, if it is one to write down.
    fn place(&self, chunk: &FileChunk) -> (offset: Option<u64>)
        requires
            self@.wf(),
        ensures
            offset == (if self@.wants(chunk.id, chunk.index) {
                Some(chunk_offset(chunk.index as int) as u64)
            } else {
                None
            }),
    {
        match &self.receiving {
            None => None,
            Some(file) => {
                if file.id != chunk.id || chunk.index >= file.chunks || file.done {
                    return None;
                }
                // Already settled, and rewriting it would be taking a resend at its word about
                // bytes that are already on disk.
                if chunk.index < file.have {
                    return None;
                }
                proof {
                    chunks_tile_the_file(file.size as int, chunk.index as int);
                }
                Some(chunk.index as u64 * CHUNK as u64)
            },
        }
    }

    /// Reports again what is there, where a chunk is one that is settled already.
    ///
    /// A sender that sends such a chunk has not heard the report that settled it, and would go
    /// on sending it for ever.
    fn repeat_report(&mut self, chunk: &FileChunk)
        requires
            old(self)@.wf(),
        ensures
            final(self)@.wf(),
            final(self)@ == (if old(self)@.receiving matches Some(file) && file.settled(
                chunk.id,
                chunk.index,
            ) {
                old(self)@.queueing(FileMessage::Report(old(self)@.receiving->0.report()))
            } else {
                old(self)@
            }),
    {
        match &self.receiving {
            Some(file) => if file.id == chunk.id && chunk.index < file.have {
                let report = FileReport { id: file.id, have: file.have, arrived: file.arrived };
                self.outgoing.push_back(FileMessage::Report(report));
            },
            None => {},
        }
    }

    /// Counts a chunk that the caller has written down, and says whether the file is whole.
    ///
    /// A report is queued when it is, when the chunk left a gap, and every [`REPORT_EVERY`]
    /// chunks. A chunk that was not one to write down counts for nothing.
    pub fn wrote(&mut self, id: u32, index: u32) -> (whole: bool)
        requires
            old(self)@.wf(),
        ensures
            final(self)@.wf(),
            !old(self)@.wants(id, index) ==> final(self)@ == old(self)@ && !whole,
            old(self)@.wants(id, index) ==> {
                let before = old(self)@.receiving->0;
                &&& final(self)@.receiving matches Some(after)
                &&& before.landing(index, after)
                &&& whole == after.whole()
                &&& final(self)@ == (FilesModel {
                    receiving: Some(after),
                    ..if before.reports(index, after) {
                        old(self)@.queueing(FileMessage::Report(after.report()))
                    } else {
                        old(self)@
                    }
                })
            },
    {
        match &mut self.receiving {
            None => false,
            Some(file) => {
                if file.id != id || index >= file.chunks || file.done || index < file.have {
                    return false;
                }
                let due: bool = file.land(index);
                let whole: bool = file.have >= file.chunks;
                let report = FileReport { id: file.id, have: file.have, arrived: file.arrived };
                if due {
                    self.outgoing.push_back(FileMessage::Report(report));
                }
                whole
            },
        }
    }

    /// Marks a whole file as put in its place, and gives its name.
    ///
    /// Until then nothing counts it as received. `None` where there is no file that is whole and
    /// not yet in place.
    pub fn settled(&mut self) -> (name: Option<String>)
        requires
            old(self)@.wf(),
        ensures
            final(self)@.wf(),
            match old(self)@.receiving {
                Some(file) if file.whole() && !file.done => {
                    &&& name matches Some(name) && name@ == file.name
                    &&& final(self)@ == (FilesModel {
                        receiving: Some(ReceivingModel { done: true, ..file }),
                        ..old(self)@
                    })
                },
                _ => name is None && final(self)@ == old(self)@,
            },
    {
        match &mut self.receiving {
            None => None,
            Some(file) => if file.have >= file.chunks && !file.done {
                proof {
                    assert forall|i: int| #[trigger]
                        got(file.have as int, file.arrived, i) implies i < file.chunks by {
                        assert(file@.holds(i));
                    }
                }
                file.done = true;
                Some(file.name.clone())
            } else {
                None
            },
        }
    }

    /// Records what the receiver says it has, and lines up whatever is missing.
    fn reported(&mut self, report: &FileReport, now_us: u64)
        requires
            old(self)@.wf(),
        ensures
            final(self)@.wf(),
            final(self)@ == old(self)@.reported(*report, now_us as int),
    {
        let complete: bool = match &mut self.sending {
            None => return ,
            Some(file) => {
                if file.id != report.id || report.have < file.have {
                    return ;
                }
                file.hear(report, now_us)
            },
        };
        if complete {
            self.sending = None;
        }
    }

    /// Answers a request for what this machine is offering, given what its folder holds.
    pub fn listed(&mut self, found: &Vec<Found>)
        requires
            old(self)@.wf(),
        ensures
            final(self)@.wf(),
            final(self)@.outgoing.len() == old(self)@.outgoing.len() + 1,
            final(self)@.outgoing.drop_last() == old(self)@.outgoing,
            final(self)@.outgoing.last() matches FileMessage::Listing(list) && list.lists(found@),
            final(self)@ == (FilesModel { outgoing: final(self)@.outgoing, ..old(self)@ }),
    {
        self.outgoing.push_back(FileMessage::Listing(listing(found)));
        assert(self@.outgoing.drop_last() =~= old(self)@.outgoing);
    }

    /// What the transfer in each direction is doing.
    #[must_use]
    pub fn progress(&self) -> (all: Vec<Progress>)
        requires
            self@.wf(),
        ensures
            all@.len() == (if self@.sending is Some {
                1int
            } else {
                0int
            }) + (if self@.receiving is Some {
                1int
            } else {
                0int
            }),
            self@.sending matches Some(file) ==> {
                &&& all@[0].sending
                &&& all@[0].name@ == file.name
                &&& all@[0].size == file.size
                &&& all@[0].moved == spec_moved(file.have, file.size)
                &&& all@[0].done == (file.have >= file.chunks)
            },
            self@.receiving matches Some(file) ==> {
                &&& !all@.last().sending
                &&& all@.last().name@ == file.name
                &&& all@.last().size == file.size
                &&& all@.last().moved == spec_moved(file.have, file.size)
                &&& all@.last().done == file.done
            },
    {
        let mut all: Vec<Progress> = Vec::new();
        match &self.sending {
            Some(file) => {
                all.push(
                    Progress {
                        name: file.name.clone(),
                        size: file.size,
                        moved: moved(file.have, file.size),
                        sending: true,
                        done: file.have >= file.chunks,
                    },
                );
            },
            None => {},
        }
        match &self.receiving {
            Some(file) => {
                all.push(
                    Progress {
                        name: file.name.clone(),
                        size: file.size,
                        moved: moved(file.have, file.size),
                        sending: false,
                        done: file.done,
                    },
                );
            },
            None => {},
        }
        all
    }
}

impl Default for Files {
    fn default() -> (files: Self)
        ensures
            files@.wf(),
            files@ == (FilesModel {
                sending: None,
                receiving: None,
                outgoing: Seq::empty(),
                next_id: 1,
            }),
    {
        Files::new()
    }
}

// ---------------------------------------------------------------------------
// What lands is what was sent.

/// A file's bytes after `payload` is written at `offset`. What was never written in between
/// reads as zero.
pub open spec fn written_at(disk: Seq<u8>, offset: int, payload: Seq<u8>) -> Seq<u8> {
    let end = offset + payload.len();
    Seq::new(
        if disk.len() < end {
            end as nat
        } else {
            disk.len()
        },
        |i: int|
            if offset <= i < end {
                payload[i - offset]
            } else if i < disk.len() {
                disk[i]
            } else {
                0
            },
    )
}

/// The bytes of chunk `index` of a file.
pub open spec fn chunk_of(data: Seq<u8>, index: int) -> Seq<u8> {
    data.subrange(
        chunk_offset(index),
        chunk_offset(index) + chunk_length(data.len() as int, index),
    )
}

/// Whether chunk `index` of `data` is where it belongs on disk.
pub open spec fn on_disk(disk: Seq<u8>, data: Seq<u8>, index: int) -> bool {
    let end = chunk_offset(index) + chunk_length(data.len() as int, index);
    end <= disk.len() && forall|i: int|
        chunk_offset(index) <= i < end ==> #[trigger] disk[i] == data[i]
}

/// Whether what is on disk agrees with what is said of it: every chunk that is held is there.
pub open spec fn faithful(disk: Seq<u8>, data: Seq<u8>, file: ReceivingModel) -> bool {
    &&& file.size == data.len()
    &&& disk.len() <= data.len()
    &&& forall|i: int|
        0 <= i < file.chunks && #[trigger] file.holds(i) ==> on_disk(disk, data, i)
}

/// A transfer begins with nothing on disk and nothing said of it.
pub proof fn a_transfer_begins_faithful(offer: FileOffer, data: Seq<u8>)
    requires
        offer.size == data.len(),
    ensures
        faithful(Seq::empty(), data, begun(offer)),
{
    assert forall|i: int| 0 <= i < offer.chunks implies !#[trigger] begun(offer).holds(i) by {
        if 0 < i < 32 {
            lemma_marked(0, 0, (i - 1) as u32);
        }
    }
}

/// Writing a chunk of the file down where it goes, and counting it, leaves everything said of
/// the disk true, in whatever order chunks arrive and however often.
pub proof fn writing_a_chunk_keeps_faith(
    disk: Seq<u8>,
    data: Seq<u8>,
    before: ReceivingModel,
    index: u32,
    after: ReceivingModel,
)
    requires
        before.wf(),
        faithful(disk, data, before),
        before.have <= index < before.chunks,
        before.landing(index, after),
    ensures
        faithful(
            written_at(disk, chunk_offset(index as int), chunk_of(data, index as int)),
            data,
            after,
        ),
{
    let size = data.len() as int;
    let now = written_at(disk, chunk_offset(index as int), chunk_of(data, index as int));
    chunks_tile_the_file(size, index as int);
    assert forall|i: int| 0 <= i < after.chunks && #[trigger] after.holds(i) implies on_disk(
        now,
        data,
        i,
    ) by {
        chunks_tile_the_file(size, i);
        if i != index {
            assert(before.holds(i));
        }
    }
}

/// A file that is whole is the file that was sent.
pub proof fn a_whole_file_is_the_file_sent(disk: Seq<u8>, data: Seq<u8>, file: ReceivingModel)
    requires
        file.wf(),
        file.whole(),
        faithful(disk, data, file),
    ensures
        disk == data,
{
    let size = data.len() as int;
    assert forall|at: int| 0 <= at < size implies at < disk.len() && disk[at] == data[at] by {
        let index = at / CHUNK as int;
        assert(index < file.chunks && chunk_offset(index) <= at < chunk_offset(index) + CHUNK);
        chunks_tile_the_file(size, index);
        assert(file.holds(index));
        assert(on_disk(disk, data, index));
    }
    if size > 0 {
        assert(disk[size - 1] == data[size - 1]);
    }
    assert(disk =~= data);
}

/// What a report says is there is what the receiver holds, so a sender that hears it sends every
/// chunk of its window that is missing, as far as it has sent any, and none that is not.
pub proof fn a_sender_repeats_what_the_receiver_lacks(
    file: ReceivingModel,
    sending: SendingModel,
    now: int,
    index: int,
)
    requires
        file.wf(),
        sending.wf(),
        sending.chunks == file.chunks,
        sending.heeds(file.report()),
        !file.whole(),
        file.have <= index < file.have + WINDOW,
        index < sending.fresh,
        index < file.chunks,
    ensures
        sending.hearing(file.report(), now) matches Some(after) && (after.again.contains(
            index as u32,
        ) <==> !file.holds(index)),
{
    let report = file.report();
    let heard = SendingModel { have: report.have as int, arrived: report.arrived, heard: now, ..sending };
    let upto = if heard.fresh < heard.window_end() {
        heard.fresh
    } else {
        heard.window_end()
    };
    the_missing_are_what_the_report_lacks(file.have, file.arrived, upto);
    assert(got(file.have, file.arrived, index) == file.holds(index));
}

// ---------------------------------------------------------------------------
// What is on offer.

/// What a partly arrived file's name ends in while it is arriving.
pub open spec fn partial_suffix() -> Seq<char> {
    ".prism-part"@
}

/// The name a file has while it is arriving.
#[must_use]
pub fn partial_name(name: &str) -> (partial: String)
    ensures
        partial@ == name@ + partial_suffix(),
{
    let mut partial: String = name.to_owned();
    partial.append(".prism-part");
    partial
}

/// A file found in the folder.
#[derive(Debug)]
pub struct Found {
    /// When it was last changed, in nanoseconds on a clock that all the files share.
    pub modified: i128,
    /// How many bytes it holds.
    pub size: u64,
    /// What it is called.
    pub name: String,
}

impl Found {
    /// Whether it is on offer: it has a plain name and is not still arriving.
    pub open spec fn offered(self) -> bool {
        is_plain(self.name@) && !partial_suffix().is_suffix_of(self.name@)
    }

    /// How much of a listing it takes up.
    pub open spec fn cost(self) -> int {
        9 + encode_utf8(self.name@).len() as int
    }
}

/// Where a file changed at `when` goes among files in order: behind all that are no older.
pub open spec fn place_of(sorted: Seq<Found>, when: i128) -> int
    decreases sorted.len(),
{
    if sorted.len() == 0 {
        0
    } else if sorted.last().modified < when {
        place_of(sorted.drop_last(), when)
    } else {
        sorted.len() as int
    }
}

/// The files that are on offer, newest first, files of one age in the order they were found in.
pub open spec fn newest_first(found: Seq<Found>) -> Seq<Found>
    decreases found.len(),
{
    if found.len() == 0 {
        Seq::empty()
    } else {
        let rest = newest_first(found.drop_last());
        if found.last().offered() {
            rest.insert(place_of(rest, found.last().modified), found.last())
        } else {
            rest
        }
    }
}

/// What files cost together.
pub open spec fn cost_of(files: Seq<Found>) -> int
    decreases files.len(),
{
    if files.len() == 0 {
        0
    } else {
        cost_of(files.drop_last()) + files.last().cost()
    }
}

/// Room for entries in one listing, in bytes.
pub open spec fn listing_room() -> int {
    MAX_PLAINTEXT_SIZE - 5
}

impl FileListing {
    /// Whether this is the listing of a folder: as many of its files as fit, newest first, and
    /// whether there were more.
    pub open spec fn lists(self, found: Seq<Found>) -> bool {
        let all = newest_first(found);
        let n = self.files@.len();
        &&& n <= all.len()
        &&& forall|i: int|
            0 <= i < n ==> (#[trigger] self.files@[i]).name@ == all[i].name@ && self.files@[i].size
                == all[i].size
        &&& cost_of(all.take(n as int)) <= listing_room()
        &&& n < all.len() ==> cost_of(all.take(n as int + 1)) > listing_room()
        &&& self.more == (n < all.len())
    }
}

proof fn lemma_place_of(sorted: Seq<Found>, when: i128)
    ensures
        0 <= place_of(sorted, when) <= sorted.len(),
        forall|i: int|
            place_of(sorted, when) <= i < sorted.len() ==> (#[trigger] sorted[i]).modified < when,
        place_of(sorted, when) > 0 ==> sorted[place_of(sorted, when) - 1].modified >= when,
    decreases sorted.len(),
{
    if sorted.len() > 0 && sorted.last().modified < when {
        let rest = sorted.drop_last();
        lemma_place_of(rest, when);
        assert forall|i: int| place_of(sorted, when) <= i < sorted.len() implies (
        #[trigger] sorted[i]).modified < when by {
            if i < rest.len() {
                assert(rest[i] == sorted[i]);
            }
        }
    }
}

/// What is listed is in order, newest first, and is on offer.
pub proof fn the_listing_is_in_order(found: Seq<Found>)
    ensures
        forall|i: int, j: int|
            0 <= i <= j < newest_first(found).len() ==> newest_first(found)[i].modified
                >= newest_first(found)[j].modified,
        forall|i: int|
            0 <= i < newest_first(found).len() ==> (#[trigger] newest_first(found)[i]).offered()
                && found.contains(newest_first(found)[i]),
        newest_first(found).len() <= found.len(),
    decreases found.len(),
{
    if found.len() > 0 {
        let rest = newest_first(found.drop_last());
        let last = found.last();
        the_listing_is_in_order(found.drop_last());
        lemma_place_of(rest, last.modified);
        let at = place_of(rest, last.modified);
        let all = newest_first(found);
        assert(found[found.len() - 1] == last);
        assert forall|i: int| 0 <= i < all.len() implies (#[trigger] all[i]).offered()
            && found.contains(all[i]) by {
            let from = if !last.offered() || i < at {
                i
            } else {
                i - 1
            };
            if last.offered() && i == at {
                assert(all[i] == last);
            } else {
                assert(all[i] == rest[from]);
                assert(found.drop_last().contains(rest[from]));
                let k = choose|k: int|
                    0 <= k < found.drop_last().len() && found.drop_last()[k] == rest[from];
                assert(found[k] == all[i]);
            }
        }
        if last.offered() {
            assert forall|i: int, j: int| 0 <= i <= j < all.len() implies all[i].modified
                >= all[j].modified by {
                if i < at {
                    assert(all[i] == rest[i]);
                    if at > 0 {
                        assert(rest[i].modified >= rest[at - 1].modified);
                    }
                } else if i > at {
                    assert(all[i] == rest[i - 1]);
                }
                if j < at {
                    assert(all[j] == rest[j]);
                } else if j > at {
                    assert(all[j] == rest[j - 1]);
                }
            }
        }
    }
}

/// Returns whether a found file is on offer.
fn is_offered(file: &Found) -> (yes: bool)
    ensures
        yes == file.offered(),
{
    plain_file_name(file.name.as_str()) && !ends_with(file.name.as_str(), ".prism-part")
}

/// Returns whether a name ends in `suffix`.
fn ends_with(name: &str, suffix: &str) -> (yes: bool)
    ensures
        yes == suffix@.is_suffix_of(name@),
{
    let len: usize = name.unicode_len();
    let tail: usize = suffix.unicode_len();
    if tail > len {
        return false;
    }
    let mut i: usize = 0;
    while i < tail
        invariant
            i <= tail <= len,
            len == name@.len(),
            tail == suffix@.len(),
            forall|j: int| 0 <= j < i ==> suffix@[j] == name@[len - tail + j],
        decreases tail - i,
    {
        if name.get_char(len - tail + i) != suffix.get_char(i) {
            assert(name@.subrange(len - tail, len as int)[i as int] == name@[len - tail + i]);
            return false;
        }
        i = i + 1;
    }
    assert(suffix@ =~= name@.subrange(len - tail, len as int));
    true
}

/// Reads what this machine is offering out of what its folder holds, newest first.
///
/// Partly arrived files are not offered: something still being written is not a thing anybody
/// meant to hand over. What does not fit in one message is left out, and the listing says so.
#[must_use]
pub fn listing(found: &Vec<Found>) -> (listing: FileListing)
    ensures
        listing.lists(found@),
{
    let sorted: Vec<Found> = sort_newest_first(found);
    let ghost all = newest_first(found@);
    let mut files: Vec<FileEntry> = Vec::new();
    let mut room: usize = MAX_PLAINTEXT_SIZE - 5;
    let mut i: usize = 0;
    assert(all.take(0) =~= Seq::<Found>::empty());
    while i < sorted.len()
        invariant
            i <= sorted.len(),
            sorted@.len() == all.len(),
            all == newest_first(found@),
            forall|j: int|
                0 <= j < all.len() ==> (#[trigger] sorted@[j]).name@ == all[j].name@
                    && sorted@[j].size == all[j].size && sorted@[j].modified == all[j].modified,
            files@.len() == i,
            forall|j: int|
                0 <= j < i ==> (#[trigger] files@[j]).name@ == all[j].name@ && files@[j].size
                    == all[j].size,
            room + cost_of(all.take(i as int)) == listing_room(),
        decreases sorted.len() - i,
    {
        let length: usize = sorted[i].name.as_str().as_bytes().len();
        assert(all.take(i as int + 1).drop_last() =~= all.take(i as int));
        assert(all.take(i as int + 1).last() == all[i as int]);
        assert(cost_of(all.take(i as int + 1)) == cost_of(all.take(i as int)) + 9 + length);
        if room < 9 || length > room - 9 {
            return FileListing { more: true, files };
        }
        room = room - 9 - length;
        files.push(FileEntry { size: sorted[i].size, name: sorted[i].name.clone() });
        i = i + 1;
    }
    assert(all.take(i as int) =~= all);
    FileListing { more: false, files }
}

/// Returns the files that are on offer, newest first.
fn sort_newest_first(found: &Vec<Found>) -> (sorted: Vec<Found>)
    ensures
        sorted@ == newest_first(found@),
{
    let mut sorted: Vec<Found> = Vec::new();
    let mut i: usize = 0;
    assert(found@.take(0) =~= Seq::<Found>::empty());
    while i < found.len()
        invariant
            i <= found.len(),
            sorted@ == newest_first(found@.take(i as int)),
        decreases found.len() - i,
    {
        let file: &Found = &found[i];
        assert(found@.take(i as int + 1).drop_last() =~= found@.take(i as int));
        assert(found@.take(i as int + 1).last() == found@[i as int]);
        if is_offered(file) {
            let at: usize = find_place(&sorted, file.modified);
            proof {
                lemma_place_of(sorted@, file.modified);
            }
            sorted.insert(
                at,
                Found { modified: file.modified, size: file.size, name: file.name.clone() },
            );
        }
        i = i + 1;
    }
    assert(found@.take(i as int) =~= found@);
    sorted
}

/// Returns where a file changed at `when` goes among files in order.
fn find_place(sorted: &Vec<Found>, when: i128) -> (at: usize)
    ensures
        at == place_of(sorted@, when),
{
    let mut at: usize = sorted.len();
    assert(sorted@.take(at as int) =~= sorted@);
    while at > 0 && sorted[at - 1].modified < when
        invariant
            at <= sorted.len(),
            place_of(sorted@.take(at as int), when) == place_of(sorted@, when),
        decreases at,
    {
        assert(sorted@.take(at as int).drop_last() =~= sorted@.take(at as int - 1));
        at = at - 1;
    }
    at
}

/// Nothing that is on offer is left out of what is listed, and nothing is listed twice: the files
/// in order are those of the folder that are on offer, each as often as it was found.
pub proof fn the_listing_leaves_nothing_out(found: Seq<Found>)
    ensures
        newest_first(found).to_multiset() == found.filter(
            |file: Found| file.offered(),
        ).to_multiset(),
    decreases found.len(),
{
    broadcast use vstd::seq_lib::group_to_multiset_ensures;

    reveal(Seq::filter);
    let kept = |file: Found| file.offered();
    if found.len() > 0 {
        let before = found.drop_last();
        let rest = newest_first(before);
        let last = found.last();
        the_listing_leaves_nothing_out(before);
        lemma_place_of(rest, last.modified);
        if last.offered() {
            assert(found.filter(kept) == before.filter(kept).push(last));
            assert(newest_first(found).to_multiset() =~= rest.to_multiset().insert(last)) by {
                rest.to_multiset_ensures();
                vstd::seq_lib::to_multiset_insert(
                    rest,
                    place_of(rest, last.modified),
                    last,
                );
            }
            assert(before.filter(kept).push(last).to_multiset() =~= before.filter(
                kept,
            ).to_multiset().insert(last));
        } else {
            assert(found.filter(kept) == before.filter(kept));
        }
    }
}

/// A chunk that is missing is taken in, at its own place in the file, whichever it is: one of the
/// file that is arriving, past the run that is there, as long as the file is not done.
pub proof fn a_missing_chunk_is_written_where_it_belongs(
    files: FilesModel,
    file: ReceivingModel,
    chunk: FileChunk,
    now: int,
)
    requires
        files.receiving == Some(file),
        file.wf(),
        !file.done,
        chunk.id == file.id,
        chunk.index < file.chunks,
        !file.holds(chunk.index as int),
    ensures
        files.arriving(FileMessage::Chunk(chunk), now).1 == (FileTask::Write {
            chunk,
            offset: (chunk.index * 1166) as u64,
        }),
        files.arriving(FileMessage::Chunk(chunk), now).0 == files,
{
}

/// A chunk of another transfer, or past the end of the file, does nothing.
pub proof fn a_chunk_that_is_not_of_the_file_does_nothing(
    files: FilesModel,
    chunk: FileChunk,
    now: int,
)
    requires
        files.receiving matches Some(file) ==> file.wf() && (chunk.id != file.id || chunk.index
            >= file.chunks),
    ensures
        files.arriving(FileMessage::Chunk(chunk), now) == (files, FileTask::Nothing),
{
}

/// An offer is taken where no file is arriving, it is no larger than 2 GiB, and it is cut into as
/// many chunks as its size needs; it is refused otherwise, with the reason, and nothing else
/// changes.
pub proof fn an_offer_is_taken_where_it_adds_up(files: FilesModel, offer: FileOffer, now: int)
    ensures
        ({
            let (after, task) = files.arriving(FileMessage::Offer(offer), now);
            let arriving = files.receiving matches Some(file) && !file.done;
            let adds_up = offer.size <= 0x8000_0000 && offer.chunks * 1166 >= offer.size && (
            offer.chunks - 1) * 1166 < offer.size;
            &&& !arriving && adds_up ==> after == files && task == FileTask::Create(offer)
            &&& arriving || !adds_up ==> {
                &&& task == FileTask::Nothing
                &&& after.outgoing == files.outgoing.push(
                    FileMessage::Answer(
                        FileAnswer {
                            id: offer.id,
                            accepted: false,
                            refusal: if arriving {
                                FileRefusal::Declined
                            } else {
                                FileRefusal::TooLarge
                            },
                        },
                    ),
                )
                &&& after.sending == files.sending && after.receiving == files.receiving
            }
        }),
{
    let chunks = chunk_count(offer.size as int);
    assert(chunks * 1166 >= offer.size && (chunks - 1) * 1166 < offer.size) by (nonlinear_arith)
        requires
            chunks == (offer.size + 1165) / 1166,
    ;
}

/// An answer speaks of the file that was offered: taken, it starts to move; refused, it is given
/// up; and an answer about any other is nothing to it.
pub proof fn an_answer_starts_or_ends_what_was_offered(
    files: FilesModel,
    answer: FileAnswer,
    now: int,
)
    ensures
        ({
            let after = files.arriving(FileMessage::Answer(answer), now).0;
            &&& after.receiving == files.receiving && after.outgoing == files.outgoing
            &&& files.sending is None ==> after == files
            &&& files.sending matches Some(file) ==> {
                &&& file.id != answer.id ==> after == files
                &&& file.id == answer.id && !answer.accepted ==> after.sending is None
                &&& file.id == answer.id && answer.accepted ==> {
                    &&& after.sending matches Some(moving)
                    &&& moving.accepted
                    &&& moving.heard == now
                    &&& moving.have == file.have && moving.fresh == file.fresh && moving.again
                        == file.again && moving.size == file.size && moving.name == file.name
                }
            }
        }),
{
}

/// A report moves the sender on to where the receiver is, and ends the transfer where that is the
/// end. One that is older than what is known, or about another transfer, is nothing to it.
pub proof fn a_report_moves_the_sender_on(files: FilesModel, report: FileReport, now: int)
    ensures
        ({
            let after = files.arriving(FileMessage::Report(report), now).0;
            &&& after.receiving == files.receiving && after.outgoing == files.outgoing
            &&& files.sending is None ==> after == files
            &&& files.sending matches Some(file) ==> {
                &&& file.id != report.id || report.have < file.have ==> after == files
                &&& file.id == report.id && report.have >= file.have && report.have >= file.chunks
                    ==> after.sending is None
                &&& file.id == report.id && file.have <= report.have < file.chunks ==> {
                    &&& after.sending matches Some(moving)
                    &&& moving.have == report.have
                    &&& moving.arrived == report.arrived
                    &&& moving.heard == now
                    &&& moving.fresh == file.fresh
                    &&& moving.again.len() > 0 && moving.again.contains(report.have)
                }
            }
        }),
{
    if let Some(file) = files.sending {
        if file.id == report.id && file.have <= report.have < file.chunks {
            let moving = file.hearing(report, now)->0;
            let heard = SendingModel {
                have: report.have as int,
                arrived: report.arrived,
                heard: now,
                ..file
            };
            let upto = if heard.fresh < heard.window_end() {
                heard.fresh
            } else {
                heard.window_end()
            };
            lemma_the_first_is_missing(heard.have, heard.arrived, upto);
            assert(moving.again[0] == report.have);
        }
    }
}

/// The first chunk past the run is the first that is missing.
proof fn lemma_the_first_is_missing(have: int, arrived: u32, upto: int)
    ensures
        missing(have, arrived, upto).len() > 0,
        missing(have, arrived, upto)[0] == have as u32,
    decreases upto - have,
{
    if upto > have + 1 {
        lemma_the_first_is_missing(have, arrived, upto - 1);
    }
}

/// What is sent next lies inside the window: one of the thirty-two chunks past the run that the
/// receiver is known to have. What the receiver lacks goes first, in order; then what has never
/// been sent, one after another; and where all of that has gone out, nothing, until 600
/// milliseconds have passed without a report, after which the window goes out again.
pub proof fn what_is_sent_next_lies_in_the_window(sending: SendingModel, now: int)
    requires
        sending.wf(),
        sending.accepted,
    ensures
        ({
            let due = sending.due(now);
            let after = sending.handing_out(now);
            let end = if sending.have + 32 < sending.chunks {
                sending.have + 32
            } else {
                sending.chunks
            };
            &&& due matches Some(index) ==> index < end
            &&& sending.again.len() > 0 ==> {
                &&& due == Some(sending.again[0] as int)
                &&& after.again == sending.again.drop_first()
                &&& after.fresh == sending.fresh
            }
            &&& sending.again.len() == 0 && sending.fresh < end ==> {
                &&& due == Some(sending.fresh)
                &&& after.fresh == sending.fresh + 1
                &&& after.again == sending.again
            }
            &&& sending.again.len() == 0 && sending.fresh >= end && now - sending.heard < 600_000
                ==> due is None && after == sending
            &&& sending.again.len() == 0 && sending.fresh >= end && now - sending.heard >= 600_000
                && sending.have < end ==> {
                &&& due == Some(sending.have)
                &&& after.fresh == sending.have + 1
                &&& after.heard == now
            }
            &&& after.have == sending.have
        }),
        (SendingModel { accepted: false, ..sending }).due(now) is None,
{
}

/// A report is sent at once where a chunk completed the file, where it left a gap behind, and
/// where it is the eighth since the last; otherwise it waits.
pub proof fn a_report_is_sent_at_once_where_it_matters(
    before: ReceivingModel,
    index: u32,
    after: ReceivingModel,
)
    ensures
        after.have >= after.chunks ==> before.reports(index, after),
        before.have < index < before.have + 32 ==> before.reports(index, after),
        before.since >= 7 ==> before.reports(index, after),
        after.have < after.chunks && index == before.have && before.since < 7 ==> !before.reports(
            index,
            after,
        ),
{
}

/// How far a transfer is said to have moved is what the unbroken run of chunks comes to, and never
/// more than the file holds.
pub proof fn progress_is_what_the_run_comes_to(have: int, size: int)
    requires
        0 <= have,
        0 <= size,
    ensures
        have * 1166 <= size ==> spec_moved(have, size) == have * 1166,
        have * 1166 >= size ==> spec_moved(have, size) == size,
{
}

/// Ids follow one another and are never zero.
pub proof fn ids_are_never_zero(id: u32)
    ensures
        following_id(id) > 0,
        id < u32::MAX ==> following_id(id) == id + 1,
{
}

/// A chunk that is written down near enough to the run is known to be there from then on, and so
/// is every one that was; and a file of which every chunk is known to be there is whole.
pub proof fn a_chunk_that_landed_is_there(
    before: ReceivingModel,
    index: u32,
    after: ReceivingModel,
    other: int,
)
    requires
        before.wf(),
        before.landing(index, after),
        0 <= other,
    ensures
        index < before.have + 32 ==> after.holds(index as int),
        before.holds(other) ==> after.holds(other),
        after.holds(other) ==> before.holds(other) || other == index,
        (forall|i: int| 0 <= i < after.chunks ==> #[trigger] after.holds(i)) ==> after.whole(),
        after.whole() ==> (forall|i: int| 0 <= i < after.chunks ==> #[trigger] after.holds(i)),
{
    assert(after.holds(index as int) == (before.holds(index as int) || index < before.have + 32));
    assert(after.holds(other) == (before.holds(other) || (other == index && index < before.have
        + 32)));
    if !after.whole() {
        assert(!after.holds(after.have));
    }
}

/// Another file can be sent once the last is over: while one waits for its answer, or has chunks
/// that the receiver is not known to have, it cannot.
pub proof fn one_file_is_sent_at_a_time(files: FilesModel)
    ensures
        files.sending is None ==> !files.busy(),
        files.sending matches Some(file) ==> {
            &&& !file.accepted ==> files.busy()
            &&& file.have < file.chunks ==> files.busy()
            &&& file.accepted && file.have >= file.chunks ==> !files.busy()
        },
{
}

} // verus!
