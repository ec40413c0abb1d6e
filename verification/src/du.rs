//! Disk-usage accounting, planned as a task list instead of recursion.
//!
//! A [`DuTask`] either enters a path — summing the plain files inside it
//! and scheduling one enter task per subdirectory, followed by its own
//! summary — or summarizes it, folding the collected total into the parent
//! directory's slot on the carry stack. The decisions live here; reading
//! directories and printing summaries stay with the caller.

use vstd::prelude::*;

verus! {

/// What one directory entry contributes to the traversal.
pub struct DirEntryInfo {
    /// The entry's path.
    pub path: String,
    /// Whether the entry is itself a directory to enter.
    pub is_dir: bool,
    /// The entry's size as the platform reports it.
    pub size: u64,
}

/// Task instruction to enter or summarize one path. Tasks form a linked
/// list: the traversal runs without recursion, a stack of directory sizes
/// carried beside it.
pub struct DuTask {
    /// The task to run after this one.
    pub next: Option<Box<DuTask>>,
    /// Enter or summarize this path.
    pub path: String,
    /// Enter the path and count its files when true, else summarize it.
    pub enter: bool,
}

/// The tasks of a chain, front to back, each as its path and mode.
pub open spec fn task_list(t: DuTask) -> Seq<(Seq<char>, bool)>
    decreases t,
{
    seq![(t.path@, t.enter)] + tail_list(t.next)
}

/// The tasks hanging off an optional chain link.
pub open spec fn tail_list(t: Option<Box<DuTask>>) -> Seq<(Seq<char>, bool)>
    decreases t,
{
    match t {
        Some(n) => task_list(*n),
        None => Seq::empty(),
    }
}

/// Bytes of the plain (non-directory) entries.
pub open spec fn files_size(es: Seq<DirEntryInfo>) -> int
    decreases es.len(),
{
    if es.len() == 0 {
        0
    } else {
        files_size(es.drop_last()) + if es.last().is_dir {
            0int
        } else {
            es.last().size as int
        }
    }
}

/// One enter task per directory entry, the last entry's first.
pub open spec fn dir_tasks(es: Seq<DirEntryInfo>) -> Seq<(Seq<char>, bool)>
    decreases es.len(),
{
    if es.len() == 0 {
        Seq::empty()
    } else {
        (if es.last().is_dir {
            seq![(es.last().path@, true)]
        } else {
            Seq::empty()
        }) + dir_tasks(es.drop_last())
    }
}

/// Addition capped at the largest representable size.
pub open spec fn cap_add(a: u64, b: u64) -> u64 {
    if a + b <= u64::MAX {
        (a + b) as u64
    } else {
        u64::MAX
    }
}

/// The directory listing as plain values, or nothing where it could not be
/// read.
pub open spec fn listing(entries: Option<Vec<DirEntryInfo>>) -> Seq<DirEntryInfo> {
    match entries {
        Some(v) => v@,
        None => Seq::empty(),
    }
}

impl DuTask {
    /// Start a traversal: enter the given path first, with nothing after.
    pub fn new(path: String) -> (r: Self)
        ensures
            r.path@ == path@,
            r.enter,
            r.next is None,
    {
        DuTask { next: None, path, enter: true }
    }

    /// Run one task, given the directory listing where it enters a path
    /// (`None` when the directory could not be read).
    ///
    /// Entering pushes the capped sum of the plain files' sizes onto the
    /// carry stack and schedules the subdirectories, then this path's
    /// summary, then whatever was already scheduled. Summarizing pops this
    /// path's total, folds it into the parent's slot, and hands back the
    /// total and path to report.
    #[verifier::loop_isolation(false)]
    pub fn run_step(self, entries: Option<Vec<DirEntryInfo>>, carry: &mut Vec<u64>) -> (r: (
        Option<Box<DuTask>>,
        Option<(u64, String)>,
    ))
        requires
            !self.enter ==> old(carry)@.len() >= 2,
        ensures
            self.enter ==> {
                &&& r.1 is None
                &&& final(carry)@ == old(carry)@.push(
                    if files_size(listing(entries)) <= u64::MAX {
                        files_size(listing(entries)) as u64
                    } else {
                        u64::MAX
                    },
                )
                &&& r.0 matches Some(t) && task_list(*t) == dir_tasks(listing(entries)) + seq![
                    (self.path@, false),
                ] + tail_list(self.next)
            },
            !self.enter ==> {
                &&& r.0 == self.next
                &&& r.1 matches Some(p) && p.0 == old(carry)@.last() && p.1@ == self.path@
                &&& final(carry)@ == old(carry)@.take(old(carry)@.len() - 2).push(
                    cap_add(old(carry)@[old(carry)@.len() - 2], old(carry)@.last()),
                )
            },
    {
        let DuTask { next, path, enter } = self;
        if enter {
            let ghost spath = path@;
            let ghost tail0 = tail_list(next);
            let summary = DuTask { next, path, enter: false };
            let mut next_holder: Option<Box<DuTask>> = Some(Box::new(summary));
            let mut size: u64 = 0;
            let ghost es = listing(entries);
            proof {
                assert(tail_list(next_holder) =~= dir_tasks(es.take(0)) + seq![(spath, false)]
                    + tail0);
            }
            match entries {
                None => {},
                Some(list) => {
                    let mut list = list;
                    let ghost mut j: int = 0;
                    while list.len() > 0
                        invariant
                            0 <= j <= es.len(),
                            list@ == es.skip(j),
                            size as int == if files_size(es.take(j)) <= u64::MAX {
                                files_size(es.take(j))
                            } else {
                                u64::MAX as int
                            },
                            tail_list(next_holder) == dir_tasks(es.take(j)) + seq![
                                (spath, false),
                            ] + tail0,
                        decreases list@.len(),
                    {
                        let ghost lv = list@;
                        let e = list.remove(0);
                        proof {
                            assert(e == es[j]);
                            assert(list@ =~= es.skip(j + 1));
                            assert(es.take(j + 1).drop_last() =~= es.take(j));
                            assert(es.take(j + 1).last() == es[j]);
                        }
                        if e.is_dir {
                            let task = DuTask { next: next_holder, path: e.path, enter: true };
                            next_holder = Some(Box::new(task));
                            proof {
                                j = j + 1;
                                assert(tail_list(next_holder) =~= dir_tasks(es.take(j)) + seq![
                                    (spath, false),
                                ] + tail0);
                            }
                        } else {
                            let v = e.size;
                            if size <= u64::MAX - v {
                                size = size + v;
                            } else {
                                size = u64::MAX;
                            }
                            proof {
                                j = j + 1;
                                assert(dir_tasks(es.take(j)) =~= dir_tasks(es.take(j - 1)));
                            }
                        }
                    }
                    proof {
                        assert(es.take(es.len() as int) =~= es);
                    }
                },
            }
            carry.push(size);
            (next_holder, None)
        } else {
            let total = match carry.pop() {
                Some(t) => t,
                None => {
                    return vstd::pervasive::unreached();
                },
            };
            let parent = match carry.pop() {
                Some(p) => p,
                None => {
                    return vstd::pervasive::unreached();
                },
            };
            let folded = if parent <= u64::MAX - total {
                parent + total
            } else {
                u64::MAX
            };
            carry.push(folded);
            proof {
                assert(carry@ =~= old(carry)@.take(old(carry)@.len() - 2).push(
                    cap_add(old(carry)@[old(carry)@.len() - 2], old(carry)@.last()),
                ));
            }
            (next, Some((total, path)))
        }
    }
}

} // verus!
