//! The manifest: the atomic pointer to what is visible.
//!
//! On disk a manifest is the magic, the checksum of the body, the length of the
//! body and the body. It is replaced by way of a temporary file and a rename,
//! and the one before it is kept beside it.

use crate::bytes::{self, copy_range, push_all, push_le, read_le, starts_with};
use crate::checkpoint::copy_metas;
use crate::checksum::{self, checksum};
use crate::cow::CowMap;
use crate::error::{corrupt, Error, ErrorView};
use crate::levels::SegmentMeta;
use crate::order::Datum;
use crate::schema::Catalog;
use crate::state::Mark;
use crate::text::{self, decimal_text};
use vstd::prelude::*;
use vstd::string::*;

verus! {

pub const FORMAT_VERSION: u32 = 1;

pub const MANIFEST_FILE: &'static str = "manifest";

pub const MANIFEST_PREV_FILE: &'static str = "manifest.prev";

pub struct Manifest {
    pub format_version: u32,
    /// The highest commit that the segments hold in full. Those above it live
    /// in the log.
    pub committed_version: u64,
    pub segments: Vec<SegmentMeta>,
    /// The log that is written to; logs with another id are obsolete.
    pub wal_id: u32,
    /// The greatest identity value that each table has given out.
    pub identity_high_water: CowMap<String, Mark>,
    /// The schemas that describe the segments.
    pub catalog: Option<Catalog>,
}

// ---- The frame --------------------------------------------------------------

pub open spec fn magic() -> Seq<u8> {
    seq![0x45u8, 0x53, 0x51, 0x4c, 0x4d, 0x41, 0x4e, 0x49]
}

fn magic_bytes() -> (r: Vec<u8>)
    ensures
        r@ == magic(),
{
    let r: Vec<u8> = vec![0x45, 0x53, 0x51, 0x4c, 0x4d, 0x41, 0x4e, 0x49];
    assert(r@ =~= magic());
    r
}

/// A body in its frame.
pub open spec fn framed(body: Seq<u8>) -> Seq<u8> {
    magic() + bytes::le(checksum::crc32(body) as nat, 4) + bytes::le(body.len(), 4) + body
}

/// The body that a frame holds, or what is wrong with it. Bytes behind the body
/// are not looked at.
pub open spec fn unframed(data: Seq<u8>) -> Result<Seq<u8>, Seq<char>> {
    if data.len() < 16 || !magic().is_prefix_of(data) {
        Err("manifest: bad magic"@)
    } else {
        let len = bytes::le_value(data.subrange(12, 16));
        if 16 + len > data.len() {
            Err("manifest: truncated body"@)
        } else {
            let body = data.subrange(16, (16 + len) as int);
            if checksum::crc32(body) != bytes::le_value(data.subrange(8, 12)) {
                Err("manifest: crc mismatch"@)
            } else {
                Ok(body)
            }
        }
    }
}

/// Put the body of a manifest in its frame.
pub fn encode(body: &[u8]) -> (r: Vec<u8>)
    requires
        body@.len() <= u32::MAX,
    ensures
        r@ == framed(body@),
{
    let mut out = magic_bytes();
    push_le(&mut out, checksum(body) as u64, 4);
    push_le(&mut out, body.len() as u64, 4);
    push_all(&mut out, body);
    out
}

/// Take the body of a manifest out of its frame.
pub fn decode(data: &[u8]) -> (r: Result<Vec<u8>, Error>)
    ensures
        match unframed(data@) {
            Ok(body) => r is Ok && r->Ok_0@ == body,
            Err(m) => r is Err && r->Err_0@ == ErrorView::Corrupt(m),
        },
{
    let start = magic_bytes();
    if data.len() < 16 || !starts_with(data, start.as_slice()) {
        return Err(corrupt("manifest: bad magic"));
    }
    let stored: u64 = match read_le(data, 8, 4) {
        Some(v) => v,
        None => 0,
    };
    let len: u64 = match read_le(data, 12, 4) {
        Some(v) => v,
        None => 0,
    };
    if len > (data.len() - 16) as u64 {
        return Err(corrupt("manifest: truncated body"));
    }
    let body = copy_range(data, 16, 16 + len as usize);
    if checksum(body.as_slice()) as u64 != stored {
        return Err(corrupt("manifest: crc mismatch"));
    }
    Ok(body)
}

/// What is framed comes out of the frame, whatever stands behind it.
pub proof fn lemma_frame_round_trip(body: Seq<u8>, rest: Seq<u8>)
    requires
        body.len() <= u32::MAX,
    ensures
        unframed(framed(body) + rest) == Ok::<Seq<u8>, Seq<char>>(body),
{
    let data = framed(body) + rest;
    let crc = checksum::crc32(body) as nat;
    bytes::lemma_radix_small();
    bytes::lemma_le_len(crc, 4);
    bytes::lemma_le_len(body.len(), 4);
    bytes::lemma_le_round_trip(crc, 4);
    bytes::lemma_le_round_trip(body.len(), 4);
    assert(data.subrange(0, 8) =~= magic());
    assert(data.subrange(8, 12) =~= bytes::le(crc, 4));
    assert(data.subrange(12, 16) =~= bytes::le(body.len(), 4));
    assert(data.subrange(16, (16 + body.len()) as int) =~= body);
}

/// A frame that was cut short is refused, wherever it was cut.
pub proof fn lemma_frame_cut(body: Seq<u8>, n: int)
    requires
        body.len() <= u32::MAX,
        0 <= n < framed(body).len(),
    ensures
        unframed(framed(body).subrange(0, n)) is Err,
{
    let data = framed(body).subrange(0, n);
    let crc = checksum::crc32(body) as nat;
    bytes::lemma_radix_small();
    bytes::lemma_le_len(crc, 4);
    bytes::lemma_le_len(body.len(), 4);
    bytes::lemma_le_round_trip(body.len(), 4);
    if n >= 16 {
        assert(data.subrange(12, 16) =~= bytes::le(body.len(), 4));
    }
}

/// A frame whose magic or checksum was changed is refused.
pub proof fn lemma_frame_head_damaged(body: Seq<u8>, data: Seq<u8>)
    requires
        body.len() <= u32::MAX,
        data.len() == framed(body).len(),
        data.subrange(12, data.len() as int) == framed(body).subrange(12, data.len() as int),
        data != framed(body),
    ensures
        unframed(data) is Err,
{
    let whole = framed(body);
    let crc = checksum::crc32(body) as nat;
    bytes::lemma_radix_small();
    bytes::lemma_le_len(crc, 4);
    bytes::lemma_le_len(body.len(), 4);
    bytes::lemma_le_round_trip(crc, 4);
    bytes::lemma_le_round_trip(body.len(), 4);
    let tail = data.subrange(12, data.len() as int);
    assert(whole.subrange(12, whole.len() as int) =~= bytes::le(body.len(), 4) + body);
    assert(data.subrange(12, 16) =~= tail.subrange(0, 4));
    assert(tail.subrange(0, 4) =~= bytes::le(body.len(), 4));
    assert(data.subrange(16, data.len() as int) =~= tail.subrange(4, tail.len() as int));
    assert(tail.subrange(4, tail.len() as int) =~= body);
    if magic().is_prefix_of(data) && bytes::le_value(data.subrange(8, 12)) == crc {
        bytes::lemma_le_of_value(data.subrange(8, 12));
        assert(data.subrange(0, 8) =~= magic());
        assert(data =~= data.subrange(0, 8) + data.subrange(8, 12) + tail);
        assert(data =~= whole);
    }
}

/// A frame whose body was changed within one byte, of one bit or of more, is
/// refused.
pub proof fn lemma_frame_body_damaged(body: Seq<u8>, other: Seq<u8>, at: int)
    requires
        body.len() <= u32::MAX,
        checksum::one_byte_apart(body, other, at),
    ensures
        unframed(magic() + bytes::le(checksum::crc32(body) as nat, 4) + bytes::le(body.len(), 4) + other) is Err,
{
    let crc = checksum::crc32(body) as nat;
    let data = magic() + bytes::le(crc, 4) + bytes::le(body.len(), 4) + other;
    bytes::lemma_radix_small();
    bytes::lemma_le_len(crc, 4);
    bytes::lemma_le_len(body.len(), 4);
    bytes::lemma_le_round_trip(crc, 4);
    bytes::lemma_le_round_trip(body.len(), 4);
    assert(data.subrange(8, 12) =~= bytes::le(crc, 4));
    assert(data.subrange(12, 16) =~= bytes::le(body.len(), 4));
    assert(data.subrange(16, (16 + body.len()) as int) =~= other);
    checksum::lemma_changed_byte(body, other, at);
}

// ---- Publishing what a checkpoint, a rewrite or a load wrote -----------------

/// The manifest of a store whose segments are `metas`: they hold every commit up
/// to `version`, and those above it are in the log `wal_id`.
pub fn checkpoint_manifest(version: u64, metas: &Vec<SegmentMeta>, wal_id: u32, catalog: &Catalog, marks: &CowMap<String, Mark>) -> (r: Manifest)
    requires
        marks.wf(),
    ensures
        r.format_version == FORMAT_VERSION,
        r.committed_version == version,
        r.segments@ == metas@,
        r.wal_id == wal_id,
        r.identity_high_water.wf(),
        r.identity_high_water@ == marks@,
        r.catalog matches Some(c) && c@ == catalog@,
{
    Manifest {
        format_version: FORMAT_VERSION,
        committed_version: version,
        segments: copy_metas(metas),
        wal_id,
        identity_high_water: marks.duplicate_map(),
        catalog: Some(catalog.duplicate()),
    }
}

// ---- Reading ----------------------------------------------------------------

pub open spec fn version_error(found: u32) -> ErrorView {
    ErrorView::Corrupt(
        "unsupported format_version "@ + text::decimal(found as nat) + " (expected "@ + text::decimal(FORMAT_VERSION as nat) + ")"@,
    )
}

/// The manifest to open with, and whether it is the fallback.
pub struct Loaded {
    pub manifest: Manifest,
    pub fallback: bool,
}

impl Manifest {
    /// The manifest of a new database.
    pub fn initial() -> (r: Manifest)
        ensures
            r.format_version == FORMAT_VERSION,
            r.committed_version == 0,
            r.segments@.len() == 0,
            r.wal_id == 1,
            r.identity_high_water.wf(),
            r.identity_high_water@ == Map::<Seq<u8>, Mark>::empty(),
            r.catalog matches Some(c) && c@.len() == 0,
    {
        Manifest {
            format_version: FORMAT_VERSION,
            committed_version: 0,
            segments: Vec::new(),
            wal_id: 1,
            identity_high_water: CowMap::new(),
            catalog: Some(Catalog::new()),
        }
    }

    /// Accept a manifest only in the format that this library writes, and with a
    /// sound catalog where it has one. `sound` is what came of validating that
    /// catalog on its own.
    pub fn checked(self, sound: Result<(), Error>) -> (r: Result<Manifest, Error>)
        ensures
            match r {
                Ok(m) => m == self && self.format_version == FORMAT_VERSION && (self.catalog is Some ==> sound is Ok),
                Err(e) => if self.format_version != FORMAT_VERSION {
                    e@ == version_error(self.format_version)
                } else {
                    self.catalog is Some && sound == Err::<(), Error>(e)
                },
            },
    {
        if self.format_version != FORMAT_VERSION {
            let found = decimal_text(self.format_version as u64);
            let expected = decimal_text(FORMAT_VERSION as u64);
            return Err(
                Error::Corrupt(
                    "unsupported format_version ".to_owned().concat(found.as_str()).concat(" (expected ").concat(
                        expected.as_str(),
                    ).concat(")"),
                ),
            );
        }
        if self.catalog.is_some() {
            match sound {
                Ok(()) => {},
                Err(e) => {
                    return Err(e);
                },
            }
        }
        Ok(self)
    }

    /// Choose between the manifest and the one before it. An unreadable one
    /// comes as the text of its error.
    pub fn load(primary: Result<Manifest, String>, previous: Result<Manifest, String>) -> (r: Result<Loaded, Error>)
        ensures
            match (primary, previous) {
                (Ok(m), _) => r matches Ok(l) && l.manifest == m && !l.fallback,
                (Err(_), Ok(m)) => r matches Ok(l) && l.manifest == m && l.fallback,
                (Err(p), Err(_)) => r is Err && r->Err_0@ == ErrorView::Corrupt("no valid manifest (primary: "@ + p@ + ")"@),
            },
    {
        match primary {
            Ok(manifest) => Ok(Loaded { manifest, fallback: false }),
            Err(what) => match previous {
                Ok(manifest) => Ok(Loaded { manifest, fallback: true }),
                Err(_) => Err(
                    Error::Corrupt("no valid manifest (primary: ".to_owned().concat(what.as_str()).concat(")")),
                ),
            },
        }
    }

    /// The manifest before the current one, where it can be read.
    pub fn previous(read: Result<Manifest, String>) -> (r: Option<Manifest>)
        ensures
            match read {
                Ok(m) => r == Some(m),
                Err(_) => r is None,
            },
    {
        match read {
            Ok(m) => Some(m),
            Err(_) => None,
        }
    }
}

// ---- Replacing --------------------------------------------------------------

/// A step of replacing the manifest.
#[derive(Clone, Copy, PartialEq, Eq, Structural, Debug)]
pub enum PublishStep {
    /// Delete the damaged manifest.
    RemoveDamaged,
    /// Write the new manifest to a temporary file.
    WriteTemp,
    /// Rename the manifest to the previous one.
    Rotate,
    /// Rename the temporary file to the manifest.
    Install,
    /// Rename the previous manifest back.
    Restore,
    /// Make the new name durable.
    SyncInstalled,
    /// Write a copy of the new manifest to a second temporary file.
    WriteCopy,
    /// Rename the copy to the previous manifest.
    InstallCopy,
    /// Make the copy durable.
    SyncCopy,
    Complete,
    /// The new manifest is in place, but it may not be durable.
    SyncFailed,
    NotPublished,
}

/// What to do after a step. `has_current` and `has_previous` say which files
/// there are after it.
pub open spec fn step_after(step: PublishStep, ok: bool, healing: bool, has_current: bool, has_previous: bool) -> PublishStep {
    match step {
        PublishStep::RemoveDamaged => if ok {
            PublishStep::WriteTemp
        } else {
            PublishStep::NotPublished
        },
        PublishStep::WriteTemp => if !ok {
            PublishStep::NotPublished
        } else if !healing && has_current {
            PublishStep::Rotate
        } else {
            PublishStep::Install
        },
        PublishStep::Rotate => if ok {
            PublishStep::Install
        } else {
            PublishStep::NotPublished
        },
        PublishStep::Install => if ok {
            PublishStep::SyncInstalled
        } else if !healing && has_previous {
            PublishStep::Restore
        } else {
            PublishStep::NotPublished
        },
        PublishStep::Restore => PublishStep::NotPublished,
        PublishStep::SyncInstalled => if !ok {
            PublishStep::SyncFailed
        } else if healing {
            PublishStep::Complete
        } else {
            PublishStep::WriteCopy
        },
        PublishStep::WriteCopy => if ok {
            PublishStep::InstallCopy
        } else {
            PublishStep::SyncFailed
        },
        PublishStep::InstallCopy => if ok {
            PublishStep::SyncCopy
        } else {
            PublishStep::SyncFailed
        },
        PublishStep::SyncCopy => if ok {
            PublishStep::Complete
        } else {
            PublishStep::SyncFailed
        },
        end => end,
    }
}

impl PublishStep {
    /// Where publishing starts.
    pub fn publish() -> (r: PublishStep)
        ensures
            r == PublishStep::WriteTemp,
    {
        PublishStep::WriteTemp
    }

    /// Where it starts after a database was opened with its previous manifest.
    /// The damaged one goes first, so that it never replaces the good one.
    pub fn heal() -> (r: PublishStep)
        ensures
            r == PublishStep::RemoveDamaged,
    {
        PublishStep::RemoveDamaged
    }

    /// Where it starts when only the fallback is to be made anew.
    pub fn refresh_previous() -> (r: PublishStep)
        ensures
            r == PublishStep::WriteCopy,
    {
        PublishStep::WriteCopy
    }

    pub fn next(self, ok: bool, healing: bool, has_current: bool, has_previous: bool) -> (r: PublishStep)
        ensures
            r == step_after(self, ok, healing, has_current, has_previous),
    {
        match self {
            PublishStep::RemoveDamaged => {
                if ok {
                    PublishStep::WriteTemp
                } else {
                    PublishStep::NotPublished
                }
            },
            PublishStep::WriteTemp => {
                if !ok {
                    PublishStep::NotPublished
                } else if !healing && has_current {
                    PublishStep::Rotate
                } else {
                    PublishStep::Install
                }
            },
            PublishStep::Rotate => {
                if ok {
                    PublishStep::Install
                } else {
                    PublishStep::NotPublished
                }
            },
            PublishStep::Install => {
                if ok {
                    PublishStep::SyncInstalled
                } else if !healing && has_previous {
                    PublishStep::Restore
                } else {
                    PublishStep::NotPublished
                }
            },
            PublishStep::Restore => PublishStep::NotPublished,
            PublishStep::SyncInstalled => {
                if !ok {
                    PublishStep::SyncFailed
                } else if healing {
                    PublishStep::Complete
                } else {
                    PublishStep::WriteCopy
                }
            },
            PublishStep::WriteCopy => {
                if ok {
                    PublishStep::InstallCopy
                } else {
                    PublishStep::SyncFailed
                }
            },
            PublishStep::InstallCopy => {
                if ok {
                    PublishStep::SyncCopy
                } else {
                    PublishStep::SyncFailed
                }
            },
            PublishStep::SyncCopy => {
                if ok {
                    PublishStep::Complete
                } else {
                    PublishStep::SyncFailed
                }
            },
            end => end,
        }
    }
}

/// What the manifest files hold.
#[verifier::ext_equal]
pub struct Disk {
    pub current: Option<Seq<u8>>,
    pub previous: Option<Seq<u8>>,
    pub temp: Option<Seq<u8>>,
    pub copy: Option<Seq<u8>>,
}

/// A file that was read as a manifest.
pub open spec fn readable(file: Option<Seq<u8>>) -> bool {
    file matches Some(data) && unframed(data) is Ok
}

/// The manifest with which a database is opened.
pub open spec fn shown(d: Disk) -> Option<Seq<u8>> {
    if readable(d.current) {
        d.current
    } else if readable(d.previous) {
        d.previous
    } else {
        None
    }
}

/// The files after a step that publishes `data`. A rename that fails changes
/// nothing; a write that fails may leave anything in the temporary file.
pub open spec fn step_done(step: PublishStep, ok: bool, data: Seq<u8>, before: Disk, after: Disk) -> bool {
    match step {
        PublishStep::RemoveDamaged => after == (if ok {
            Disk { current: None, ..before }
        } else {
            before
        }),
        PublishStep::WriteTemp => {
            &&& after == (Disk { temp: after.temp, ..before })
            &&& ok ==> after.temp == Some(data)
        },
        PublishStep::Rotate => after == (if ok {
            Disk { current: None, previous: before.current, ..before }
        } else {
            before
        }),
        PublishStep::Install => after == (if ok {
            Disk { current: before.temp, temp: None, ..before }
        } else {
            before
        }),
        PublishStep::Restore => after == (if ok {
            Disk { current: before.previous, previous: None, ..before }
        } else {
            before
        }),
        PublishStep::WriteCopy => {
            &&& after == (Disk { copy: after.copy, ..before })
            &&& ok ==> after.copy == Some(data)
        },
        PublishStep::InstallCopy => after == (if ok {
            Disk { previous: before.copy, copy: None, ..before }
        } else {
            before
        }),
        _ => after == before,
    }
}

/// What holds before each step of publishing `data` over a database that showed
/// `old`. Healing leaves the fallback untouched throughout.
pub open spec fn publishing(step: PublishStep, healing: bool, old: Option<Seq<u8>>, data: Seq<u8>, d: Disk) -> bool {
    &&& healing ==> d.previous == old && readable(old)
    &&& match step {
        PublishStep::RemoveDamaged => healing && !readable(d.current),
        PublishStep::WriteTemp => if healing {
            d.current is None
        } else {
            shown(d) == old && (d.current is Some ==> readable(d.current))
        },
        PublishStep::Rotate => !healing && shown(d) == old && readable(d.current) && d.temp == Some(data),
        PublishStep::Install => shown(d) == old && d.current is None && d.temp == Some(data),
        PublishStep::Restore => !healing && shown(d) == old && d.current is None,
        PublishStep::NotPublished => shown(d) == old,
        PublishStep::WriteCopy => !healing && d.current == Some(data),
        PublishStep::InstallCopy => !healing && d.current == Some(data) && d.copy == Some(data),
        PublishStep::SyncCopy => !healing && d.current == Some(data) && d.previous == Some(data),
        PublishStep::Complete => d.current == Some(data) && (!healing ==> d.previous == Some(data)),
        PublishStep::SyncInstalled => d.current == Some(data),
        PublishStep::SyncFailed => d.current == Some(data),
    }
}

/// A crash between any two steps, and a step that fails, leave a database that
/// opens: with the manifest that it had, or with the new one.
pub proof fn lemma_publish_step(
    step: PublishStep,
    ok: bool,
    healing: bool,
    old: Option<Seq<u8>>,
    data: Seq<u8>,
    before: Disk,
    after: Disk,
)
    requires
        unframed(data) is Ok,
        publishing(step, healing, old, data, before),
        step_done(step, ok, data, before, after),
    ensures
        publishing(step_after(step, ok, healing, after.current is Some, after.previous is Some), healing, old, data, after),
        shown(after) == old || shown(after) == Some(data),
{
}

} // verus!
