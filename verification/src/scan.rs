//! Marker scanning and section locating.
//!
//! A buffer holds an embedded section when the six-byte marker occurs at
//! least twice in it; the payload then starts right after the second
//! occurrence.  A single occurrence is not taken as evidence of a section:
//! the host program's own code may contain the marker bytes once (the
//! embedding program itself carries the constant), so only a second
//! occurrence marks the appended section.  This is a heuristic: a host whose
//! code happens to hold the marker twice is indistinguishable from a file
//! with a real section.

use vstd::prelude::*;

verus! {

/// The marker sequence, `@SHED@`, as a mathematical sequence of bytes.
pub open spec fn marker() -> Seq<u8> {
    seq![0x40u8, 0x53u8, 0x48u8, 0x45u8, 0x44u8, 0x40u8]
}

/// The full marker occurs in `b` starting at offset `i`.
pub open spec fn marker_at(b: Seq<u8>, i: int) -> bool {
    &&& 0 <= i
    &&& i + 6 <= b.len()
    &&& b[i] == 0x40u8
    &&& b[i + 1] == 0x53u8
    &&& b[i + 2] == 0x48u8
    &&& b[i + 3] == 0x45u8
    &&& b[i + 4] == 0x44u8
    &&& b[i + 5] == 0x40u8
}

/// How many offsets in `[0, upto)` start a full marker occurrence.
pub open spec fn marker_count(b: Seq<u8>, upto: int) -> int
    decreases upto,
{
    if upto <= 0 {
        0
    } else {
        marker_count(b, upto - 1) + if marker_at(b, upto - 1) {
            1int
        } else {
            0int
        }
    }
}

/// The buffer holds an embedded section: the marker occurs at least twice.
pub open spec fn section_exists(b: Seq<u8>) -> bool {
    marker_count(b, b.len() as int) >= 2
}

/// Offset `o` starts the second marker occurrence: a marker starts there and
/// exactly one marker starts before it.
pub open spec fn second_marker_at(b: Seq<u8>, o: int) -> bool {
    marker_at(b, o) && marker_count(b, o) == 1
}

/// The offset where the payload starts: just past the second marker
/// occurrence.  Meaningful only when `section_exists(b)`.
pub open spec fn payload_start(b: Seq<u8>) -> int {
    (choose|o: int| second_marker_at(b, o)) + 6
}

/// The payload: everything from `payload_start` to the end of the buffer.
/// Meaningful only when `section_exists(b)`.
pub open spec fn payload_of(b: Seq<u8>) -> Seq<u8> {
    b.subrange(payload_start(b), b.len() as int)
}

/// The marker count never decreases as the scanned prefix grows.
pub proof fn lemma_marker_count_monotone(b: Seq<u8>, i: int, j: int)
    requires
        i <= j,
    ensures
        marker_count(b, i) <= marker_count(b, j),
    decreases j - i,
{
    if i < j {
        lemma_marker_count_monotone(b, i, j - 1);
    }
}

/// At most one offset starts the second marker occurrence.
pub proof fn lemma_second_marker_unique(b: Seq<u8>, o1: int, o2: int)
    requires
        second_marker_at(b, o1),
        second_marker_at(b, o2),
    ensures
        o1 == o2,
{
    if o1 < o2 {
        lemma_marker_count_monotone(b, o1 + 1, o2);
    } else if o2 < o1 {
        lemma_marker_count_monotone(b, o2 + 1, o1);
    }
}

/// Wherever at least two markers occur in `[0, upto)`, some offset starts
/// the second occurrence.
pub proof fn lemma_second_marker_exists(b: Seq<u8>, upto: int)
    requires
        marker_count(b, upto) >= 2,
    ensures
        exists|o: int| second_marker_at(b, o) && o < upto,
    decreases upto,
{
    if marker_count(b, upto - 1) >= 2 {
        lemma_second_marker_exists(b, upto - 1);
    } else {
        assert(second_marker_at(b, upto - 1));
    }
}

/// When a section exists, its payload lies inside the buffer.
pub proof fn lemma_payload_start_in_bounds(b: Seq<u8>)
    requires
        section_exists(b),
    ensures
        6 <= payload_start(b) <= b.len(),
        second_marker_at(b, payload_start(b) - 6),
{
    lemma_second_marker_exists(b, b.len() as int);
    let o = choose|o: int| second_marker_at(b, o);
    assert(second_marker_at(b, o));
}

/// Wherever a prefix of `b` is kept and only bytes at or past `b`'s end
/// differ, no marker occurrence inside the kept prefix is lost.
pub proof fn lemma_prefix_count_ge(b: Seq<u8>, c: Seq<u8>, upto: int)
    requires
        b.len() <= c.len(),
        forall|k: int| 0 <= k < b.len() ==> b[k] == c[k],
        upto <= b.len(),
    ensures
        marker_count(c, upto) >= marker_count(b, upto),
    decreases upto,
{
    if upto > 0 {
        lemma_prefix_count_ge(b, c, upto - 1);
        if marker_at(b, upto - 1) {
            assert(marker_at(c, upto - 1));
        }
    }
}

/// Two buffers that agree on their first `m` bytes hold the same marker
/// occurrences at every offset whose occurrence lies inside those bytes.
pub proof fn lemma_prefix_count_eq(b: Seq<u8>, c: Seq<u8>, m: int, upto: int)
    requires
        m <= b.len(),
        m <= c.len(),
        forall|k: int| 0 <= k < m ==> b[k] == c[k],
        upto <= m - 5,
    ensures
        marker_count(b, upto) == marker_count(c, upto),
    decreases upto,
{
    if upto > 0 {
        lemma_prefix_count_eq(b, c, m, upto - 1);
        assert(marker_at(b, upto - 1) <==> marker_at(c, upto - 1));
    }
}

/// With no marker occurrence at all, every prefix counts zero.
pub proof fn lemma_no_marker_count_zero(b: Seq<u8>, upto: int)
    requires
        forall|i: int| !marker_at(b, i),
    ensures
        marker_count(b, upto) == 0,
    decreases upto,
{
    if upto > 0 {
        lemma_no_marker_count_zero(b, upto - 1);
    }
}

/// A buffer in which the marker never occurs holds no section.
pub proof fn lemma_no_marker_no_section(b: Seq<u8>)
    requires
        forall|i: int| !marker_at(b, i),
    ensures
        !section_exists(b),
{
    lemma_no_marker_count_zero(b, b.len() as int);
}

/// A buffer in which the marker occurs exactly once holds no section: a
/// single occurrence is not taken as evidence of one.
pub proof fn lemma_single_marker_no_section(b: Seq<u8>)
    requires
        marker_count(b, b.len() as int) == 1,
    ensures
        !section_exists(b),
{
}

/// A buffer in which the marker occurs exactly twice holds a section, and
/// the payload starts right after the second occurrence.
pub proof fn lemma_two_markers_section(b: Seq<u8>)
    requires
        marker_count(b, b.len() as int) == 2,
    ensures
        section_exists(b),
        forall|o: int| second_marker_at(b, o) ==> payload_start(b) == o + 6,
{
    lemma_payload_start_in_bounds(b);
    assert forall|o: int| second_marker_at(b, o) implies payload_start(b) == o + 6 by {
        lemma_second_marker_unique(b, o, payload_start(b) - 6);
    }
}

/// Whether a full marker starts at offset `i` of `contents`.
pub fn marker_match(contents: &[u8], i: usize) -> (r: bool)
    requires
        i < contents@.len(),
    ensures
        r == marker_at(contents@, i as int),
{
    if contents.len() - i < 6 {
        return false;
    }
    contents[i] == 0x40 && contents[i + 1] == 0x53 && contents[i + 2] == 0x48 && contents[i + 3]
        == 0x45 && contents[i + 4] == 0x44 && contents[i + 5] == 0x40
}

/// Scan `contents` for the embedded section.
///
/// Returns `(exists, offset)`: `exists` says whether the marker occurs at
/// least twice, and `offset` is then the start of the second occurrence, so
/// that the payload begins at `offset + 6`.  Without a section the offset
/// is zero.
pub fn locate(contents: &[u8]) -> (r: (bool, usize))
    ensures
        r.0 == section_exists(contents@),
        r.0 ==> second_marker_at(contents@, r.1 as int) && r.1 + 6 == payload_start(contents@)
            <= contents@.len(),
        !r.0 ==> r.1 == 0,
{
    let ghost b = contents@;
    let n = contents.len();
    let mut count: usize = 0;
    let mut x: usize = 0;
    while x < n
        invariant
            x <= n,
            n == b.len(),
            b == contents@,
            count == marker_count(b, x as int),
            count <= 1,
        decreases n - x,
    {
        if marker_match(contents, x) {
            count = count + 1;
            if count > 1 {
                proof {
                    assert(second_marker_at(b, x as int));
                    lemma_marker_count_monotone(b, x + 1, b.len() as int);
                    lemma_payload_start_in_bounds(b);
                    lemma_second_marker_unique(b, x as int, payload_start(b) - 6);
                }
                return (true, x);
            }
        }
        x = x + 1;
    }
    (false, 0)
}

} // verus!
