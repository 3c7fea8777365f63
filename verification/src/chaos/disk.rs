//! A disk that fails, fills up and corrupts data.

use vstd::prelude::*;

verus! {

/// How a simulated disk fails.
#[derive(Debug, Clone, Copy, PartialEq, Eq, Structural)]
pub enum DiskError {
    WriteFailed,
    ReadFailed,
    DiskFull { capacity: u64, used: u64, requested: u64 },
    Corrupted,
}

/// A simulated disk.
#[derive(Debug)]
pub struct DiskSim {
    writes_failing: bool,
    reads_failing: bool,
    capacity: u64,
    bytes_written: u64,
    io_latency_us: u64,
    corruptions: Vec<(u64, u64)>,
}

/// The state of a simulated disk.
#[verifier::ext_equal]
pub struct DiskSimView {
    pub writes_failing: bool,
    pub reads_failing: bool,
    /// The bytes that fit on the disk; 0 where there is no limit.
    pub capacity: u64,
    pub bytes_written: u64,
    pub io_latency_us: u64,
    /// The places and lengths of corrupted ranges.
    pub corruptions: Seq<(u64, u64)>,
}

impl View for DiskSim {
    type V = DiskSimView;

    closed spec fn view(&self) -> DiskSimView {
        DiskSimView {
            writes_failing: self.writes_failing,
            reads_failing: self.reads_failing,
            capacity: self.capacity,
            bytes_written: self.bytes_written,
            io_latency_us: self.io_latency_us,
            corruptions: self.corruptions@,
        }
    }
}

/// A disk without failures.
pub open spec fn sound_disk() -> DiskSimView {
    DiskSimView {
        writes_failing: false,
        reads_failing: false,
        capacity: 0,
        bytes_written: 0,
        io_latency_us: 0,
        corruptions: Seq::empty(),
    }
}

/// Two ranges, each a place and a length, share a byte.
pub open spec fn overlaps(a: (u64, u64), b: (u64, u64)) -> bool {
    a.0 < b.0 + b.1 && b.0 < a.0 + a.1
}

/// A disk after a write of some bytes was tried, and what came of it.
pub open spec fn write_tried(d: DiskSimView, size: u64) -> (DiskSimView, Result<(), DiskError>) {
    if d.writes_failing {
        (d, Err(DiskError::WriteFailed))
    } else if d.capacity > 0 && d.bytes_written + size > d.capacity {
        (
            d,
            Err(
                DiskError::DiskFull {
                    capacity: d.capacity,
                    used: d.bytes_written,
                    requested: size,
                },
            ),
        )
    } else {
        (DiskSimView { bytes_written: (d.bytes_written + size) as u64, ..d }, Ok(()))
    }
}

/// A write gets through exactly where writes do not fail and what it brings still
/// fits, if the capacity is limited at all. It is then counted; a write that fails
/// is not, and what fails says why.
pub proof fn law_disks_take_what_fits(d: DiskSimView, size: u64)
    requires
        d.bytes_written + size <= u64::MAX,
    ensures
        ({
            let (after, r) = write_tried(d, size);
            let fits = d.capacity == 0 || d.bytes_written + size <= d.capacity;
            &&& r is Ok <==> !d.writes_failing && fits
            &&& after.bytes_written == d.bytes_written + if r is Ok {
                size as int
            } else {
                0
            }
            &&& after.capacity == d.capacity && after.writes_failing == d.writes_failing
                && after.reads_failing == d.reads_failing && after.corruptions == d.corruptions
            &&& d.writes_failing ==> r == Err::<(), DiskError>(DiskError::WriteFailed)
            &&& !d.writes_failing && !fits ==> r == Err::<(), DiskError>(
                DiskError::DiskFull {
                    capacity: d.capacity,
                    used: d.bytes_written,
                    requested: size,
                },
            )
        }),
{
}

/// Two stretches overlap exactly where they share a byte, if neither is empty.
pub proof fn law_overlaps_share_a_byte(a: (u64, u64), b: (u64, u64))
    requires
        a.1 > 0,
        b.1 > 0,
    ensures
        overlaps(a, b) <==> exists|at: int|
            #![trigger in_stretch(a, at)]
            in_stretch(a, at) && in_stretch(b, at),
        overlaps(a, b) == overlaps(b, a),
{
    if overlaps(a, b) {
        let at = if a.0 >= b.0 {
            a.0 as int
        } else {
            b.0 as int
        };
        assert(in_stretch(a, at) && in_stretch(b, at));
    }
}

/// A byte lies in a stretch of some bytes from an offset on.
pub open spec fn in_stretch(s: (u64, u64), at: int) -> bool {
    s.0 <= at < s.0 + s.1
}

impl DiskSim {
    pub fn new() -> (r: Self)
        ensures
            r@ == sound_disk(),
    {
        DiskSim {
            writes_failing: false,
            reads_failing: false,
            capacity: 0,
            bytes_written: 0,
            io_latency_us: 0,
            corruptions: Vec::new(),
        }
    }

    /// Has all writes fail.
    pub fn fail_writes(&mut self)
        ensures
            final(self)@ == (DiskSimView { writes_failing: true, ..old(self)@ }),
    {
        self.writes_failing = true;
    }

    /// Lets writes succeed again.
    pub fn restore_writes(&mut self)
        ensures
            final(self)@ == (DiskSimView { writes_failing: false, ..old(self)@ }),
    {
        self.writes_failing = false;
    }

    /// Has all reads fail.
    pub fn fail_reads(&mut self)
        ensures
            final(self)@ == (DiskSimView { reads_failing: true, ..old(self)@ }),
    {
        self.reads_failing = true;
    }

    /// Lets reads succeed again.
    pub fn restore_reads(&mut self)
        ensures
            final(self)@ == (DiskSimView { reads_failing: false, ..old(self)@ }),
    {
        self.reads_failing = false;
    }

    /// Sets how many bytes fit; 0 for no limit.
    pub fn set_capacity(&mut self, bytes: u64)
        ensures
            final(self)@ == (DiskSimView { capacity: bytes, ..old(self)@ }),
    {
        self.capacity = bytes;
    }

    /// Sets the time that an access takes, in microseconds.
    pub fn set_io_latency_us(&mut self, us: u64)
        ensures
            final(self)@ == (DiskSimView { io_latency_us: us, ..old(self)@ }),
    {
        self.io_latency_us = us;
    }

    /// Writes some bytes, if the disk lets them be written.
    pub fn check_write(&mut self, size: u64) -> (r: Result<(), DiskError>)
        requires
            old(self)@.bytes_written + size <= u64::MAX,
        ensures
            if old(self)@.writes_failing {
                &&& r == Err::<(), DiskError>(DiskError::WriteFailed)
                &&& final(self)@ == old(self)@
            } else if old(self)@.capacity > 0 && old(self)@.bytes_written + size
                > old(self)@.capacity {
                &&& r == Err::<(), DiskError>(
                    DiskError::DiskFull {
                        capacity: old(self)@.capacity,
                        used: old(self)@.bytes_written,
                        requested: size,
                    },
                )
                &&& final(self)@ == old(self)@
            } else {
                &&& r == Ok::<(), DiskError>(())
                &&& final(self)@ == (DiskSimView {
                    bytes_written: (old(self)@.bytes_written + size) as u64,
                    ..old(self)@
                })
            },
            (final(self)@, r) == write_tried(old(self)@, size),
    {
        if self.writes_failing {
            return Err(DiskError::WriteFailed);
        }
        if self.capacity > 0 {
            if self.bytes_written + size > self.capacity {
                return Err(
                    DiskError::DiskFull {
                        capacity: self.capacity,
                        used: self.bytes_written,
                        requested: size,
                    },
                );
            }
        }
        self.bytes_written = self.bytes_written + size;
        Ok(())
    }

    /// Whether a read succeeds.
    pub fn check_read(&self) -> (r: Result<(), DiskError>)
        ensures
            r == if self@.reads_failing {
                Err::<(), DiskError>(DiskError::ReadFailed)
            } else {
                Ok::<(), DiskError>(())
            },
    {
        if self.reads_failing {
            return Err(DiskError::ReadFailed);
        }
        Ok(())
    }

    /// Corrupts a range of bytes.
    pub fn inject_corruption(&mut self, offset: u64, length: u64)
        ensures
            final(self)@ == (DiskSimView {
                corruptions: old(self)@.corruptions.push((offset, length)),
                ..old(self)@
            }),
    {
        self.corruptions.push((offset, length));
    }

    /// Whether a range of bytes holds a corrupted one.
    pub fn is_corrupted(&self, offset: u64, length: u64) -> (r: bool)
        requires
            offset + length <= u64::MAX,
            forall|i: int|
                0 <= i < self@.corruptions.len() ==> (#[trigger] self@.corruptions[i]).0
                    + self@.corruptions[i].1 <= u64::MAX,
        ensures
            r == exists|i: int|
                0 <= i < self@.corruptions.len() && overlaps(
                    #[trigger] self@.corruptions[i],
                    (offset, length),
                ),
    {
        let mut i: usize = 0;
        while i < self.corruptions.len()
            invariant
                i <= self.corruptions.len(),
                offset + length <= u64::MAX,
                forall|j: int|
                    0 <= j < self@.corruptions.len() ==> (#[trigger] self@.corruptions[j]).0
                        + self@.corruptions[j].1 <= u64::MAX,
                forall|j: int|
                    0 <= j < i ==> !overlaps(#[trigger] self@.corruptions[j], (offset, length)),
            decreases self.corruptions.len() - i,
        {
            let (start, len): (u64, u64) = self.corruptions[i];
            assert(self@.corruptions[i as int] == (start, len));
            if offset < start + len && offset + length > start {
                return true;
            }
            i += 1;
        }
        false
    }

    /// The time that an access takes, in microseconds.
    pub fn io_latency(&self) -> (r: u64)
        ensures
            r == self@.io_latency_us,
    {
        self.io_latency_us
    }

    /// Ends all failures.
    pub fn reset(&mut self)
        ensures
            final(self)@ == sound_disk(),
    {
        self.writes_failing = false;
        self.reads_failing = false;
        self.capacity = 0;
        self.bytes_written = 0;
        self.io_latency_us = 0;
        self.corruptions = Vec::new();
    }

    /// How many bytes were written.
    pub fn total_bytes_written(&self) -> (r: u64)
        ensures
            r == self@.bytes_written,
    {
        self.bytes_written
    }
}

impl Default for DiskSim {
    fn default() -> (r: Self)
        ensures
            r@ == sound_disk(),
    {
        DiskSim::new()
    }
}

} // verus!
