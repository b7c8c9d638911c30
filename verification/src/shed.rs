//! The section operations: initialize, write, read.
//!
//! A `Shed` is a handle on a host file, identified by its path.  The handle
//! never touches the file system itself: each operation takes the file's
//! current bytes and returns the new file image (or the extracted payload),
//! and the caller performs the reads and the atomic scratch-copy swap.

use vstd::prelude::*;

use crate::scan::lemma_marker_count_monotone;
use crate::scan::lemma_payload_start_in_bounds;
use crate::scan::lemma_prefix_count_eq;
use crate::scan::lemma_prefix_count_ge;
use crate::scan::lemma_second_marker_unique;
use crate::scan::locate;
use crate::scan::marker;
use crate::scan::marker_at;
use crate::scan::marker_count;
use crate::scan::payload_of;
use crate::scan::payload_start;
use crate::scan::second_marker_at;
use crate::scan::section_exists;

verus! {

/// What a section operation can report.
#[derive(Debug, PartialEq, Eq)]
pub enum ShedError {
    /// `initialize_shed` found an embedded section already present.
    AlreadyInitialized,
    /// `write_to_shed` or `read_from_shed` found no embedded section.
    NotInitialized,
}

/// The image that initialization produces: the host bytes with the marker
/// appended as an empty section.
pub open spec fn initialized_image(b: Seq<u8>) -> Seq<u8> {
    b + marker()
}

/// The image that a payload write produces: everything up to the payload
/// start is kept, the old payload is discarded, and the new payload follows.
pub open spec fn written_image(b: Seq<u8>, data: Seq<u8>) -> Seq<u8> {
    b.subrange(0, payload_start(b)) + data
}

/// A handle on a host file.
pub struct Shed {
    file_path: String,
}

impl View for Shed {
    type V = Seq<char>;

    closed spec fn view(&self) -> Seq<char> {
        self.file_path@
    }
}

impl Shed {
    /// A handle on the file at `filepath`.
    pub fn new_from_path(filepath: &str) -> (r: Shed)
        ensures
            r@ == filepath@,
    {
        Shed { file_path: filepath.to_owned() }
    }

    /// The path this handle stands for.
    pub fn path(&self) -> (r: &str)
        ensures
            r@ == self@,
    {
        self.file_path.as_str()
    }

    /// Whether `contents` holds an embedded section, and at which offset the
    /// second marker occurrence starts; the payload then begins six bytes
    /// later.  Without a section the offset is zero.
    pub fn has_shed(&self, contents: &[u8]) -> (r: (bool, usize))
        ensures
            r.0 == section_exists(contents@),
            r.0 ==> r.1 + 6 == payload_start(contents@) <= contents@.len(),
            !r.0 ==> r.1 == 0,
    {
        locate(contents)
    }

    /// Whether `contents` already holds an embedded section.
    pub fn shed_exists(&self, contents: &[u8]) -> (r: bool)
        ensures
            r == section_exists(contents@),
    {
        self.has_shed(contents).0
    }

    /// The file image with a fresh, empty section appended, or
    /// `AlreadyInitialized` when `contents` already holds one.
    pub fn initialize_shed(&self, contents: &[u8]) -> (r: Result<Vec<u8>, ShedError>)
        ensures
            match r {
                Ok(image) => !section_exists(contents@) && image@ == initialized_image(contents@),
                Err(e) => e == ShedError::AlreadyInitialized && section_exists(contents@),
            },
    {
        if self.shed_exists(contents) {
            return Err(ShedError::AlreadyInitialized);
        }
        let mut image = vstd::slice::slice_to_vec(contents);
        image.push(0x40);
        image.push(0x53);
        image.push(0x48);
        image.push(0x45);
        image.push(0x44);
        image.push(0x40);
        proof {
            assert(image@ =~= initialized_image(contents@));
        }
        Ok(image)
    }

    /// The file image with the section's payload replaced by `data`, or
    /// `NotInitialized` when `contents` holds no section.  Everything before
    /// the payload — the host bytes and the markers — is kept unchanged.
    pub fn write_to_shed(&self, contents: &[u8], data: &[u8]) -> (r: Result<Vec<u8>, ShedError>)
        ensures
            match r {
                Ok(image) => section_exists(contents@) && image@ == written_image(
                    contents@,
                    data@,
                ),
                Err(e) => e == ShedError::NotInitialized && !section_exists(contents@),
            },
    {
        // the file's length fits in usize, so the payload offset below does too
        let n = contents.len();
        let (found, second) = self.has_shed(contents);
        if !found {
            return Err(ShedError::NotInitialized);
        }
        let off = second + 6;
        let prefix = vstd::slice::slice_subrange(contents, 0, off);
        let mut image = vstd::slice::slice_to_vec(prefix);
        append_bytes(&mut image, data);
        Ok(image)
    }

    /// The section's payload: every byte of `contents` from the payload start
    /// to the end of the file.  `NotInitialized` when `contents` holds no
    /// section.
    pub fn read_from_shed(&self, contents: &[u8]) -> (r: Result<Vec<u8>, ShedError>)
        ensures
            match r {
                Ok(payload) => section_exists(contents@) && payload@ == payload_of(contents@),
                Err(e) => e == ShedError::NotInitialized && !section_exists(contents@),
            },
    {
        let n = contents.len();
        let (found, second) = self.has_shed(contents);
        if !found {
            return Err(ShedError::NotInitialized);
        }
        let off = second + 6;
        let tail = vstd::slice::slice_subrange(contents, off, n);
        Ok(vstd::slice::slice_to_vec(tail))
    }
}

/// On a host whose bytes hold the marker exactly once — as an executable
/// built from this library does, carrying the marker constant in its code —
/// initialization yields an image that holds a section, so initializing a
/// second time reports `AlreadyInitialized`.  (On a host without any marker
/// occurrence the freshly appended marker is the only one, and the
/// two-occurrence policy does not yet see a section: that is the known
/// caveat of the policy.)
pub proof fn lemma_initialize_creates_section(b: Seq<u8>)
    requires
        marker_count(b, b.len() as int) == 1,
    ensures
        section_exists(initialized_image(b)),
{
    let c = initialized_image(b);
    let n = b.len() as int;
    assert(c.len() == n + 6);
    lemma_prefix_count_ge(b, c, n);
    assert(c[n] == 0x40u8);
    assert(c[n + 1] == 0x53u8);
    assert(c[n + 2] == 0x48u8);
    assert(c[n + 3] == 0x45u8);
    assert(c[n + 4] == 0x44u8);
    assert(c[n + 5] == 0x40u8);
    assert(marker_at(c, n));
    assert(marker_count(c, n + 1) >= 2);
    lemma_marker_count_monotone(c, n + 1, c.len() as int);
}

/// Writing a payload and reading it back returns that payload unchanged,
/// whatever bytes the payload holds: the written image still holds a
/// section, its payload starts where the old one started, and the bytes from
/// there to the end are exactly the written ones.
pub proof fn lemma_write_read_round_trip(b: Seq<u8>, data: Seq<u8>)
    requires
        section_exists(b),
    ensures
        section_exists(written_image(b, data)),
        payload_start(written_image(b, data)) == payload_start(b),
        payload_of(written_image(b, data)) == data,
{
    lemma_payload_start_in_bounds(b);
    let off = payload_start(b);
    let o = off - 6;
    let c = written_image(b, data);
    assert(c.len() == off + data.len());
    assert(forall|k: int| 0 <= k < off ==> b[k] == c[k]);
    lemma_prefix_count_eq(b, c, off, o);
    assert(marker_at(c, o));
    assert(second_marker_at(c, o));
    assert(marker_count(c, o + 1) == 2);
    lemma_marker_count_monotone(c, o + 1, c.len() as int);
    let x = choose|x: int| second_marker_at(c, x);
    assert(second_marker_at(c, x));
    lemma_second_marker_unique(c, o, x);
    assert(payload_of(c) =~= data);
}

/// Reading twice without an intervening write returns the same bytes both
/// times: the payload is a function of the file contents alone, and a read
/// does not change those contents.
pub proof fn lemma_read_idempotent(b: Seq<u8>, first: Seq<u8>, second: Seq<u8>)
    requires
        first == payload_of(b),
        second == payload_of(b),
    ensures
        first == second,
{
}

/// Append every byte of `data` to `v`, in order.
fn append_bytes(v: &mut Vec<u8>, data: &[u8])
    ensures
        final(v)@ == old(v)@ + data@,
{
    let n = data.len();
    let mut i: usize = 0;
    while i < n
        invariant
            i <= n,
            n == data@.len(),
            v@ == old(v)@ + data@.subrange(0, i as int),
        decreases n - i,
    {
        let b = data[i];
        v.push(b);
        i = i + 1;
        proof {
            assert(v@ =~= old(v)@ + data@.subrange(0, i as int));
        }
    }
    proof {
        assert(data@.subrange(0, n as int) =~= data@);
    }
}

} // verus!
