//! Which files belong to a database, and whether the runs among them are what
//! their manifest says.

use crate::bytes::{self, push_all, push_be, same_text, starts_with};
use crate::checksum::{self, checksum};
use crate::error::{Error, ErrorView};
use crate::frozen::DerivedKind;
use crate::levels::SegmentMeta;
use crate::paged::PagedIndex;
use crate::primary::{PrimaryIdx, Run, RunMeta};
use crate::text::{self, decimal_text, hex_encode};
use std::sync::Arc;
use vstd::prelude::*;
use vstd::string::*;
use vstd::utf8::*;

verus! {

// ---- Names ------------------------------------------------------------------

/// What the name of an index is made of: the table, a zero byte, the column.
pub open spec fn name_bytes(table: Seq<char>, column: Seq<char>) -> Seq<u8> {
    encode_utf8(table).push(0) + encode_utf8(column)
}

/// The stem of an index's files: eight hexadecimal digits.
pub open spec fn index_stem(table: Seq<char>, column: Seq<char>) -> Seq<char> {
    text::ascii_chars(text::hex_bytes(bytes::be(checksum::crc32(name_bytes(table, column)) as nat, 4)))
}

pub open spec fn extension(kind: DerivedKind) -> Seq<char> {
    match kind {
        DerivedKind::Secondary => ".sidx"@,
        DerivedKind::Text => ".tidx"@,
        DerivedKind::Vector => ".vidx"@,
    }
}

fn extension_text(kind: DerivedKind) -> (r: &'static str)
    ensures
        r@ == extension(kind),
{
    match kind {
        DerivedKind::Secondary => ".sidx",
        DerivedKind::Text => ".tidx",
        DerivedKind::Vector => ".vidx",
    }
}

fn stem_text(table: &str, column: &str) -> (r: String)
    ensures
        r@ == index_stem(table@, column@),
{
    let mut name: Vec<u8> = Vec::new();
    push_all(&mut name, table.as_bytes());
    name.push(0);
    push_all(&mut name, column.as_bytes());
    assert(name@ =~= name_bytes(table@, column@));
    let mut crc: Vec<u8> = Vec::new();
    proof {
        bytes::lemma_radix_small();
    }
    push_be(&mut crc, checksum(name.as_slice()) as u64, 4);
    assert(crc@ =~= bytes::be(checksum::crc32(name@) as nat, 4));
    hex_encode(crc.as_slice())
}

/// The file of the first run of an index.
pub fn index_file(kind: DerivedKind, table: &str, column: &str) -> (r: String)
    ensures
        r@ == index_stem(table@, column@) + extension(kind),
{
    stem_text(table, column).concat(extension_text(kind))
}

/// The file that lists the runs of an index.
pub fn index_manifest_file(kind: DerivedKind, table: &str, column: &str) -> (r: String)
    ensures
        r@ == index_stem(table@, column@) + extension(kind) + ".runs"@,
{
    stem_text(table, column).concat(extension_text(kind)).concat(".runs")
}

/// The file of a later run.
pub fn index_run_file(kind: DerivedKind, table: &str, column: &str, level: u8, unique: &str) -> (r: String)
    ensures
        r@ == index_stem(table@, column@) + "-L"@ + text::decimal(level as nat) + "-"@ + unique@ + extension(kind) + ".run"@,
{
    let n = decimal_text(level as u64);
    stem_text(table, column).concat("-L").concat(n.as_str()).concat("-").concat(unique).concat(extension_text(kind)).concat(".run")
}

// ---- What can be deleted ----------------------------------------------------

pub open spec fn has_suffix(name: Seq<u8>, suffix: Seq<u8>) -> bool {
    name.len() >= suffix.len() && name.subrange(name.len() - suffix.len(), name.len() as int) == suffix
}

fn ends_with(name: &str, suffix: &str) -> (r: bool)
    ensures
        r == has_suffix(encode_utf8(name@), encode_utf8(suffix@)),
{
    let a = name.as_bytes();
    let b = suffix.as_bytes();
    if a.len() < b.len() {
        return false;
    }
    let tail = bytes::copy_range(a, a.len() - b.len(), a.len());
    bytes::same_bytes(tail.as_slice(), b)
}

pub open spec fn listed(names: Seq<String>, name: Seq<char>) -> bool {
    exists|i: int| 0 <= i < names.len() && (#[trigger] names[i])@ == name
}

fn is_listed(names: &Vec<String>, name: &str) -> (r: bool)
    ensures
        r == listed(names@, name@),
{
    let mut i: usize = 0;
    while i < names.len()
        invariant
            i <= names@.len(),
            forall|k: int| 0 <= k < i ==> (#[trigger] names@[k])@ != name@,
        decreases names@.len() - i,
    {
        if same_text(names[i].as_str(), name) {
            assert(names@[i as int]@ == name@);
            return true;
        }
        i = i + 1;
    }
    false
}

/// The file belongs to an index of a kind.
pub open spec fn is_index_file(kind: DerivedKind, name: Seq<char>) -> bool {
    let n = encode_utf8(name);
    let e = extension(kind);
    ||| has_suffix(n, encode_utf8(e))
    ||| has_suffix(n, encode_utf8(e + ".runs"@))
    ||| has_suffix(n, encode_utf8(e + ".run"@))
    ||| has_suffix(n, encode_utf8(e + ".tmp"@))
    ||| has_suffix(n, encode_utf8(e + ".run.tmp"@))
    ||| has_suffix(n, encode_utf8(e + ".runs.tmp"@))
}

/// Whether a file of an index can be deleted: no definition expects it.
pub fn index_orphan(kind: DerivedKind, name: &str, expected: &Vec<String>) -> (r: bool)
    ensures
        r == (is_index_file(kind, name@) && !listed(expected@, name@)),
{
    let e = extension_text(kind);
    let runs = e.to_owned().concat(".runs");
    let run = e.to_owned().concat(".run");
    let tmp = e.to_owned().concat(".tmp");
    let run_tmp = e.to_owned().concat(".run.tmp");
    let runs_tmp = e.to_owned().concat(".runs.tmp");
    let ours: bool = ends_with(name, e) || ends_with(name, runs.as_str()) || ends_with(name, run.as_str()) || ends_with(
        name,
        tmp.as_str(),
    ) || ends_with(name, run_tmp.as_str()) || ends_with(name, runs_tmp.as_str());
    ours && !is_listed(expected, name)
}

pub open spec fn is_primary_run(name: Seq<char>) -> bool {
    encode_utf8("primary-L"@).is_prefix_of(encode_utf8(name)) && has_suffix(encode_utf8(name), encode_utf8(".pidx.run"@))
}

pub open spec fn is_partial_run(name: Seq<char>) -> bool {
    encode_utf8("primary-L"@).is_prefix_of(encode_utf8(name)) && has_suffix(encode_utf8(name), encode_utf8(".run.tmp"@))
}

/// Whether a file of the primary index can be deleted: a run that no manifest
/// names, or one that was not finished.
pub fn primary_run_orphan(name: &str, keep: &Vec<String>) -> (r: bool)
    ensures
        r == ((is_primary_run(name@) && !listed(keep@, name@)) || is_partial_run(name@)),
{
    let head = "primary-L";
    let ours: bool = starts_with(name.as_bytes(), head.as_bytes());
    (ours && ends_with(name, ".pidx.run") && !is_listed(keep, name)) || (ours && ends_with(name, ".run.tmp"))
}

/// The number that digits write, where it fits.
pub open spec fn number_of(s: Seq<u8>) -> Option<nat>
    decreases s.len(),
{
    if s.len() == 0 {
        Some(0)
    } else {
        match number_of(s.drop_last()) {
            None => None,
            Some(n) => if 48 <= s.last() <= 57 && n * 10 + (s.last() - 48) <= u32::MAX {
                Some((n * 10 + (s.last() - 48)) as nat)
            } else {
                None
            },
        }
    }
}

/// The number before a suffix: at least one digit, with a plus sign or without.
pub open spec fn numbered(name: Seq<u8>, suffix: Seq<u8>) -> Option<nat> {
    if !has_suffix(name, suffix) {
        None
    } else {
        let stem = name.subrange(0, name.len() - suffix.len());
        let digits = if stem.len() > 0 && stem[0] == 43 {
            stem.subrange(1, stem.len() as int)
        } else {
            stem
        };
        if digits.len() == 0 {
            None
        } else {
            number_of(digits)
        }
    }
}

proof fn lemma_number_fails(s: Seq<u8>, n: int)
    requires
        0 <= n <= s.len(),
        number_of(s.subrange(0, n)) is None,
    ensures
        number_of(s) is None,
    decreases s.len() - n,
{
    if n < s.len() {
        let t = s.subrange(0, n + 1);
        assert(t.drop_last() =~= s.subrange(0, n));
        lemma_number_fails(s, n + 1);
    } else {
        assert(s.subrange(0, n) =~= s);
    }
}

fn parse_number(name: &str, suffix: &str) -> (r: Option<u32>)
    ensures
        match numbered(encode_utf8(name@), encode_utf8(suffix@)) {
            Some(n) => r is Some && r->0 == n,
            None => r is None,
        },
{
    if !ends_with(name, suffix) {
        return None;
    }
    let a = name.as_bytes();
    let stem = bytes::copy_range(a, 0, a.len() - suffix.as_bytes().len());
    let start: usize = if stem.len() > 0 && stem[0] == 43 {
        1
    } else {
        0
    };
    let digits = bytes::copy_range(stem.as_slice(), start, stem.len());
    assert(start == 0 ==> digits@ =~= stem@);
    if digits.len() == 0 {
        return None;
    }
    let ghost s = digits@;
    let mut n: u32 = 0;
    let mut i: usize = 0;
    assert(s.subrange(0, 0) =~= Seq::<u8>::empty());
    while i < digits.len()
        invariant
            s == digits@,
            i <= s.len(),
            number_of(s.subrange(0, i as int)) == Some(n as nat),
            numbered(encode_utf8(name@), encode_utf8(suffix@)) == number_of(s),
        decreases s.len() - i,
    {
        let d: u8 = digits[i];
        let ghost t = s.subrange(0, i + 1);
        proof {
            assert(t.drop_last() =~= s.subrange(0, i as int));
            assert(t.last() == d);
        }
        if d < 48 || d > 57 {
            proof {
                lemma_number_fails(s, i + 1);
            }
            return None;
        }
        let next: u64 = n as u64 * 10 + (d - 48) as u64;
        if next > u32::MAX as u64 {
            proof {
                lemma_number_fails(s, i + 1);
            }
            return None;
        }
        n = next as u32;
        i = i + 1;
    }
    assert(s.subrange(0, i as int) =~= s);
    Some(n)
}

/// Whether a segment's file can be deleted: it has a number that the manifest
/// does not list.
pub fn segment_orphan(name: &str, metas: &Vec<SegmentMeta>) -> (r: bool)
    ensures
        r == (numbered(encode_utf8(name@), encode_utf8(".seg"@)) matches Some(n) && forall|i: int|
            0 <= i < metas@.len() ==> (#[trigger] metas@[i]).id != n),
{
    let id: u32 = match parse_number(name, ".seg") {
        None => {
            return false;
        },
        Some(id) => id,
    };
    let mut i: usize = 0;
    while i < metas.len()
        invariant
            i <= metas@.len(),
            numbered(encode_utf8(name@), encode_utf8(".seg"@)) == Some(id as nat),
            forall|k: int| 0 <= k < i ==> (#[trigger] metas@[k]).id != id,
        decreases metas@.len() - i,
    {
        if metas[i].id == id {
            assert(metas@[i as int].id == id);
            return false;
        }
        i = i + 1;
    }
    true
}

/// Whether a log's file can be deleted: it has a number, and not that of the
/// log in use.
pub fn wal_orphan(name: &str, wal_id: u32) -> (r: bool)
    ensures
        r == (numbered(encode_utf8(name@), encode_utf8(".wal"@)) matches Some(n) && n != wal_id),
{
    match parse_number(name, ".wal") {
        None => false,
        Some(id) => id != wal_id,
    }
}

// ---- Loading runs -----------------------------------------------------------

/// A run as its manifest and its file say.
pub struct RunFile {
    pub meta: RunMeta,
    /// The length of the file.
    pub bytes: u64,
    pub index: Result<PagedIndex, Error>,
}

impl RunFile {
    pub open spec fn wf(&self) -> bool {
        self.index matches Ok(index) ==> index.wf()
    }
}

/// An earlier run has the name of this one.
pub open spec fn name_taken(files: Seq<RunFile>, i: int) -> bool {
    exists|k: int| 0 <= k < i && (#[trigger] files[k]).meta.file@ == files[i].meta.file@
}

/// What is wrong with a run, if anything.
pub open spec fn run_error(kind: Seq<char>, files: Seq<RunFile>, i: int) -> Option<ErrorView> {
    let f = files[i];
    if name_taken(files, i) {
        Some(ErrorView::Corrupt(kind + " run manifest: duplicate filename"@))
    } else if f.bytes != f.meta.bytes {
        Some(ErrorView::Corrupt(kind + " run "@ + f.meta.file@ + " has the wrong length"@))
    } else {
        match f.index {
            Err(e) => Some(e@),
            Ok(index) => if index.version() != f.meta.generation {
                Some(ErrorView::Corrupt(kind + " run "@ + f.meta.file@ + " has the wrong generation"@))
            } else {
                None
            },
        }
    }
}

pub open spec fn is_run_of(f: RunFile, r: Run) -> bool {
    &&& r.meta == f.meta
    &&& r.index.wf()
    &&& f.index matches Ok(index) && r.index.rows() == index.rows()
}

fn complaint(kind: &str, file: &str, what: &str) -> (r: Error)
    ensures
        r@ == ErrorView::Corrupt(kind@ + " run "@ + file@ + what@),
{
    Error::Corrupt(kind.to_owned().concat(" run ").concat(file).concat(what))
}

/// The first run that is wrong.
pub open spec fn first_run_error(kind: Seq<char>, files: Seq<RunFile>, i: int, e: ErrorView) -> bool {
    &&& 0 <= i < files.len()
    &&& run_error(kind, files, i) == Some(e)
    &&& forall|k: int| 0 <= k < i ==> run_error(kind, files, k) is None
}

/// Take the runs of an index as its manifest names them; the error is that of
/// the first run that is not what the manifest says.
pub fn load_runs(kind: &str, files: Vec<RunFile>) -> (r: Result<Vec<Run>, Error>)
    requires
        forall|i: int| 0 <= i < files@.len() ==> (#[trigger] files@[i]).wf(),
    ensures
        r is Ok <==> forall|i: int| 0 <= i < files@.len() ==> run_error(kind@, files@, i) is None,
        r matches Ok(runs) ==> runs@.len() == files@.len() && forall|i: int|
            0 <= i < runs@.len() ==> is_run_of(files@[i], #[trigger] runs@[i]),
        r matches Err(e) ==> exists|i: int| #[trigger] first_run_error(kind@, files@, i, e@),
{
    let ghost from = files@;
    let mut left = files;
    let mut out: Vec<Run> = Vec::new();
    while left.len() > 0
        invariant
            from == files@,
            out@.len() + left@.len() == from.len(),
            left@ == from.subrange(out@.len() as int, from.len() as int),
            forall|i: int| 0 <= i < from.len() ==> (#[trigger] from[i]).wf(),
            forall|i: int| 0 <= i < out@.len() ==> is_run_of(from[i], #[trigger] out@[i]),
            forall|i: int| 0 <= i < out@.len() ==> (#[trigger] run_error(kind@, from, i)) is None,
        decreases left@.len(),
    {
        let ghost at = out@.len() as int;
        let f = left.remove(0);
        assert(f == from[at]);
        assert(left@ =~= from.subrange(at + 1, from.len() as int));
        let RunFile { meta, bytes, index } = f;
        let mut taken: bool = false;
        let mut k: usize = 0;
        while k < out.len()
            invariant
                at == out@.len(),
                k <= out@.len(),
                at < from.len(),
                from[at].meta == meta,
                forall|i: int| 0 <= i < out@.len() ==> is_run_of(from[i], #[trigger] out@[i]),
                taken == exists|x: int| 0 <= x < k && (#[trigger] from[x]).meta.file@ == meta.file@,
            decreases out@.len() - k,
        {
            assert(is_run_of(from[k as int], out@[k as int]));
            if same_text(out[k].meta.file.as_str(), meta.file.as_str()) {
                assert(from[k as int].meta.file@ == meta.file@);
                taken = true;
            }
            k = k + 1;
        }
        assert(taken == name_taken(from, at));
        if taken {
            let e = Error::Corrupt(kind.to_owned().concat(" run manifest: duplicate filename"));
            assert(first_run_error(kind@, from, at, e@));
            return Err(e);
        }
        if bytes != meta.bytes {
            let e = complaint(kind, meta.file.as_str(), " has the wrong length");
            assert(first_run_error(kind@, from, at, e@));
            return Err(e);
        }
        match index {
            Err(e) => {
                assert(first_run_error(kind@, from, at, e@));
                return Err(e);
            },
            Ok(index) => {
                if index.dump_version() != meta.generation {
                    let e = complaint(kind, meta.file.as_str(), " has the wrong generation");
                    assert(first_run_error(kind@, from, at, e@));
                    return Err(e);
                }
                let ghost before = out@;
                out.push(Run { meta, index: Arc::new(index) });
                proof {
                    assert(run_error(kind@, from, at) is None);
                    assert forall|i: int| 0 <= i < out@.len() implies is_run_of(from[i], #[trigger] out@[i]) by {
                        if i < at {
                            assert(out@[i] == before[i]);
                        }
                    }
                }
            },
        }
    }
    Ok(out)
}

/// The stored primary index of a generation.
pub fn load_primary_runs(generation: u64, files: Vec<RunFile>) -> (r: Result<PrimaryIdx, Error>)
    requires
        forall|i: int| 0 <= i < files@.len() ==> (#[trigger] files@[i]).wf(),
    ensures
        r is Ok <==> forall|i: int| 0 <= i < files@.len() ==> run_error("primary"@, files@, i) is None,
        r matches Ok(index) ==> index.wf() && index.generation == generation && index.frozen is None && index.delta@ == Map::<
            Seq<u8>,
            Seq<crate::version::VersionView>,
        >::empty() && index.runs@.len() == files@.len() && forall|i: int|
            0 <= i < files@.len() ==> is_run_of(#[trigger] files@[i], index.runs@[i]),
        r matches Err(e) ==> exists|i: int| #[trigger] first_run_error("primary"@, files@, i, e@),
{
    match load_runs("primary", files) {
        Ok(runs) => {
            assert forall|i: int| 0 <= i < runs@.len() implies (#[trigger] runs@[i]).index.wf() by {
                assert(is_run_of(files@[i], runs@[i]));
            }
            Ok(PrimaryIdx::paged_runs(generation, runs))
        },
        Err(e) => Err(e),
    }
}

} // verus!
