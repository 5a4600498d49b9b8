//! The mount table: which special device is mounted where, capped at a
//! fixed number of entries.

use vstd::prelude::*;

verus! {

/// The most entries the table holds.
pub const MNT_MAXLEN: usize = 16;

/// Mount records: special device, directory, filesystem type.
pub struct MountTable {
    pub mnt_list: Vec<(String, String, String)>,
}

impl MountTable {
    pub fn new() -> (r: Self)
        ensures
            r.mnt_list@.len() == 0,
    {
        Self { mnt_list: Vec::new() }
    }

    /// Records a mount. A full table refuses; mounting a directory twice
    /// is accepted without a second record.
    pub fn mount(&mut self, special: String, dir: String, fstype: String, flags: u32) -> (r: isize)
        ensures
            old(self).mnt_list@.len() == MNT_MAXLEN ==> r == -1 && *final(self) == *old(self),
            old(self).mnt_list@.len() != MNT_MAXLEN && (exists|i: int|
                0 <= i < old(self).mnt_list@.len() && old(self).mnt_list@[i].1@ == dir@) ==> r == 0
                && *final(self) == *old(self),
            old(self).mnt_list@.len() != MNT_MAXLEN && !(exists|i: int|
                0 <= i < old(self).mnt_list@.len() && old(self).mnt_list@[i].1@ == dir@) ==> r == 0
                && final(self).mnt_list@.len() == old(self).mnt_list@.len() + 1,
    {
        if self.mnt_list.len() == MNT_MAXLEN {
            return -1;
        }
        let n = self.mnt_list.len();
        let mut i: usize = 0;
        while i < n
            invariant
                i <= n,
                *self == *old(self),
                n == self.mnt_list@.len(),
                n != MNT_MAXLEN,
                forall|j: int| 0 <= j < i ==> self.mnt_list@[j].1@ != dir@,
            decreases n - i,
        {
            if self.mnt_list[i].1 == dir {
                proof {
                    assert(self.mnt_list@[i as int].1@ == dir@);
                }
                return 0;
            }
            i = i + 1;
        }
        self.mnt_list.push((special, dir, fstype));
        0
    }

    /// Removes the first record whose special device or directory matches;
    /// refuses when none does.
    pub fn umount(&mut self, special: String, flags: u32) -> (r: isize)
        ensures
            r == 0 || r == -1,
            r == -1 ==> *final(self) == *old(self) && (forall|i: int|
                0 <= i < old(self).mnt_list@.len() ==> old(self).mnt_list@[i].0@ != special@ && old(
                    self,
                ).mnt_list@[i].1@ != special@),
            r == 0 ==> final(self).mnt_list@.len() == old(self).mnt_list@.len() - 1,
    {
        let len = self.mnt_list.len();
        let mut i: usize = 0;
        while i < len
            invariant
                i <= len,
                len == self.mnt_list@.len(),
                *self == *old(self),
                forall|j: int|
                    0 <= j < i ==> self.mnt_list@[j].0@ != special@ && self.mnt_list@[j].1@
                        != special@,
            decreases len - i,
        {
            if self.mnt_list[i].0 == special || self.mnt_list[i].1 == special {
                self.mnt_list.remove(i);
                return 0;
            }
            i = i + 1;
        }
        -1
    }
}

} // verus!
