//! The progress of converting a list of files into a point cloud, one file
//! after the other.
use vstd::prelude::*;

verus! {

/// How far the conversion of a file got. While a file converts, the number
/// of its points still to add counts down as points are added to cells.
#[derive(Debug)]
pub enum FileConversionStatus {
    NotStarted,
    Converting { total: u64, remaining: u64 },
    Finished,
    Failed { error: String, total: u64, remaining: u64 },
}

/// The files to convert, in order, and the number of files started so far:
/// the file being converted is the one before that number.
pub struct FilesToConvert {
    current: usize,
    statuses: Vec<FileConversionStatus>,
}

/// The message of a file that no reader is known for.
pub open spec fn unsupported_message() -> Seq<char> {
    seq![
        'F', 'i', 'l', 'e', ' ', 't', 'y', 'p', 'e', ' ', 'n', 'o', 't', ' ', 's', 'u', 'p', 'p',
        'o', 'r', 't', 'e', 'd',
    ]
}

/// The points still to add after `points` were added: counted down, and
/// wrapping around below zero as a `u64` does.
pub open spec fn remaining_after(remaining: u64, points: i32) -> u64 {
    vstd::wrapping::u64_specs::wrapping_add_signed(remaining, -(points as i64) as i64)
}

/// A failure of a file that no reader is known for, with nothing to count.
pub open spec fn is_unsupported(s: FileConversionStatus) -> bool {
    match s {
        FileConversionStatus::Failed { error, total, remaining } => error@ == unsupported_message()
            && total == 0 && remaining == 0,
        _ => false,
    }
}

/// A file that converts, or failed while converting.
pub open spec fn counts_points(s: FileConversionStatus) -> bool {
    s is Converting || s is Failed
}

/// `after` is `before` with `points` more points added: the points still to
/// add count down, the rest stays.
pub open spec fn counted_down(
    before: FileConversionStatus,
    after: FileConversionStatus,
    points: i32,
) -> bool {
    match before {
        FileConversionStatus::Converting { total, remaining } => match after {
            FileConversionStatus::Converting { total: t, remaining: r } => t == total && r
                == remaining_after(remaining, points),
            _ => false,
        },
        FileConversionStatus::Failed { error, total, remaining } => match after {
            FileConversionStatus::Failed { error: e, total: t, remaining: r } => e@ == error@ && t
                == total && r == remaining_after(remaining, points),
            _ => false,
        },
        _ => false,
    }
}

impl FilesToConvert {
    /// The number of files started so far.
    pub closed spec fn current(&self) -> nat {
        self.current as nat
    }

    /// The status of each file.
    pub closed spec fn statuses(&self) -> Seq<FileConversionStatus> {
        self.statuses@
    }

    /// Whether a file is being converted: one has been started, and not
    /// every file has.
    pub open spec fn has_current(&self) -> bool {
        1 <= self.current() <= self.statuses().len()
    }

    /// The position of the file being converted.
    pub open spec fn current_index(&self) -> int {
        self.current() - 1
    }

    /// `files` files, none started.
    pub fn new(files: usize) -> (f: Self)
        ensures
            f.current() == 0,
            f.statuses().len() == files,
            forall|i: int| 0 <= i < files ==> f.statuses()[i] is NotStarted,
    {
        let mut statuses: Vec<FileConversionStatus> = Vec::new();
        let mut i: usize = 0;
        while i < files
            invariant
                i <= files,
                statuses@.len() == i,
                forall|k: int| 0 <= k < i ==> statuses@[k] is NotStarted,
            decreases files - i,
        {
            statuses.push(FileConversionStatus::NotStarted);
            i = i + 1;
        }
        FilesToConvert { current: 0, statuses }
    }

    /// The number of files.
    pub fn len(&self) -> (n: usize)
        ensures
            n == self.statuses().len(),
    {
        self.statuses.len()
    }

    /// The status of a file.
    pub fn status(&self, i: usize) -> (s: &FileConversionStatus)
        requires
            i < self.statuses().len(),
        ensures
            *s == self.statuses()[i as int],
    {
        &self.statuses[i]
    }

    /// Moves on to the next file; returns whether there is one.
    pub fn next(&mut self) -> (more: bool)
        requires
            old(self).current() < usize::MAX,
        ensures
            final(self).current() == old(self).current() + 1,
            final(self).statuses() == old(self).statuses(),
            more == (final(self).current() <= final(self).statuses().len()),
    {
        self.current = self.current + 1;
        self.current <= self.statuses.len()
    }

    fn set_current(&mut self, status: FileConversionStatus)
        requires
            old(self).has_current(),
        ensures
            final(self).current() == old(self).current(),
            final(self).statuses() == old(self).statuses().update(old(self).current_index(), status),
    {
        let i = self.current - 1;
        self.statuses.set(i, status);
    }

    /// The current file is read: all of its points are still to add.
    pub fn start(&mut self, total: u64)
        requires
            old(self).has_current(),
        ensures
            final(self).current() == old(self).current(),
            final(self).statuses() == old(self).statuses().update(
                old(self).current_index(),
                FileConversionStatus::Converting { total, remaining: total },
            ),
    {
        self.set_current(FileConversionStatus::Converting { total, remaining: total });
    }

    /// No reader is known for the current file.
    pub fn unsupported(&mut self)
        requires
            old(self).has_current(),
        ensures
            final(self).current() == old(self).current(),
            final(self).statuses().len() == old(self).statuses().len(),
            forall|i: int|
                0 <= i < old(self).statuses().len() && i != old(self).current_index()
                    ==> final(self).statuses()[i] == old(self).statuses()[i],
            is_unsupported(final(self).statuses()[old(self).current_index()]),
    {
        proof {
            reveal_strlit("File type not supported");
        }
        let error = String::from_str("File type not supported");
        assert(error@ =~= unsupported_message());
        self.set_current(FileConversionStatus::Failed { error, total: 0, remaining: 0 });
    }

    /// Every point of the current file was read.
    pub fn finish(&mut self)
        requires
            old(self).has_current(),
        ensures
            final(self).current() == old(self).current(),
            final(self).statuses() == old(self).statuses().update(
                old(self).current_index(),
                FileConversionStatus::Finished,
            ),
    {
        self.set_current(FileConversionStatus::Finished);
    }

    /// Reading a batch of the current file failed: it keeps its counts.
    pub fn batch_failed(&mut self, error: String)
        requires
            old(self).has_current(),
            (old(self).statuses()[old(self).current_index()] is Converting),
        ensures
            final(self).current() == old(self).current(),
            final(self).statuses() == old(self).statuses().update(
                old(self).current_index(),
                FileConversionStatus::Failed {
                    error,
                    total: old(self).statuses()[old(self).current_index()]->Converting_total,
                    remaining: old(self).statuses()[old(self).current_index()]->Converting_remaining,
                },
            ),
    {
        let i = self.current - 1;
        let (total, remaining) = match &self.statuses[i] {
            FileConversionStatus::Converting { total, remaining } => (*total, *remaining),
            _ => (0, 0),
        };
        self.set_current(FileConversionStatus::Failed { error, total, remaining });
    }

    /// `points` points of the current file were added to cells (or, when
    /// negative, taken out of them).
    pub fn points_added(&mut self, points: i32)
        requires
            old(self).has_current(),
            counts_points(old(self).statuses()[old(self).current_index()]),
            points > i32::MIN,
        ensures
            final(self).current() == old(self).current(),
            final(self).statuses().len() == old(self).statuses().len(),
            forall|i: int|
                0 <= i < old(self).statuses().len() && i != old(self).current_index()
                    ==> final(self).statuses()[i] == old(self).statuses()[i],
            counted_down(
                old(self).statuses()[old(self).current_index()],
                final(self).statuses()[old(self).current_index()],
                points,
            ),
    {
        let i = self.current - 1;
        let delta: i64 = -points as i64;
        let ghost before = self.statuses@;
        let status = self.statuses.remove(i);
        let updated = match status {
            FileConversionStatus::Converting { total, remaining } => FileConversionStatus::Converting {
                total,
                remaining: remaining.wrapping_add_signed(delta),
            },
            FileConversionStatus::Failed { error, total, remaining } => FileConversionStatus::Failed {
                error,
                total,
                remaining: remaining.wrapping_add_signed(delta),
            },
            other => other,
        };
        self.statuses.insert(i, updated);
        proof {
            assert(self.statuses@ =~= before.update(i as int, self.statuses@[i as int]));
        }
    }
}

} // verus!
