//! The decisions of the filesystem watcher: each coalesced change event
//! maps to `flush` calls on the affected paths.  The watching loop itself
//! (subscription, debouncing, sleeping) stays outside; it hands each event
//! here together with what it found on disk.

use vstd::prelude::*;

use crate::cache::{ArchiveOutcome, ArchiveOutcomeView};
use crate::errors::IndexError;
use crate::manager::{opt_outcome_view, spec_flush, ManagerView, NPFManager, OpStatus};

verus! {

/// One affected path, with what the watcher found there: the explored
/// archive if the file is present, `None` if it is gone.
pub struct DiskFile {
    pub path: String,
    pub on_disk: Option<ArchiveOutcome>,
}

pub struct DiskFileView {
    pub path: Seq<char>,
    pub on_disk: Option<ArchiveOutcomeView>,
}

impl View for DiskFile {
    type V = DiskFileView;

    open spec fn view(&self) -> DiskFileView {
        DiskFileView {
            path: self.path@,
            on_disk: match self.on_disk {
                Some(ref o) => Some(o@),
                None => None,
            },
        }
    }
}

/// One coalesced filesystem change event.
pub enum FsEvent {
    Create(DiskFile),
    Remove(DiskFile),
    Write(DiskFile),
    Rename(DiskFile, DiskFile),
}

pub enum FsEventView {
    Create(DiskFileView),
    Remove(DiskFileView),
    Write(DiskFileView),
    Rename(DiskFileView, DiskFileView),
}

impl View for FsEvent {
    type V = FsEventView;

    open spec fn view(&self) -> FsEventView {
        match self {
            FsEvent::Create(f) => FsEventView::Create(f@),
            FsEvent::Remove(f) => FsEventView::Remove(f@),
            FsEvent::Write(f) => FsEventView::Write(f@),
            FsEvent::Rename(a, b) => FsEventView::Rename(a@, b@),
        }
    }
}

/// The state after handling one event, with the status of each flush (one
/// for a single-path event, two for a rename).
pub open spec fn spec_handle_event(mv: ManagerView, ev: FsEventView, t: int) -> (
    ManagerView,
    OpStatus,
    OpStatus,
) {
    match ev {
        FsEventView::Create(f) => {
            let (mv1, st) = spec_flush(mv, f.path, f.on_disk, t);
            (mv1, st, st)
        },
        FsEventView::Remove(f) => {
            let (mv1, st) = spec_flush(mv, f.path, f.on_disk, t);
            (mv1, st, st)
        },
        FsEventView::Write(f) => {
            let (mv1, st) = spec_flush(mv, f.path, f.on_disk, t);
            (mv1, st, st)
        },
        FsEventView::Rename(a, b) => {
            let (mv1, st1) = spec_flush(mv, a.path, a.on_disk, t);
            let (mv2, st2) = spec_flush(mv1, b.path, b.on_disk, t);
            (mv2, st1, st2)
        },
    }
}

impl NPFManager {
    /// Handles one coalesced change event: the affected path is flushed;
    /// for a rename, both the old and the new path are flushed and, when
    /// both fail, the first error is surfaced.  Errors are for logging
    /// only; the index stays consistent either way.
    pub fn handle_event(&mut self, ev: &FsEvent, fill_time: i64) -> (r: Result<(), IndexError>)
        requires
            old(self)@.wf(),
        ensures
            final(self)@ == spec_handle_event(old(self)@, ev@, fill_time as int).0,
            final(self)@.wf(),
            r is Ok <==> (spec_handle_event(old(self)@, ev@, fill_time as int).1 is Done
                || spec_handle_event(old(self)@, ev@, fill_time as int).2 is Done),
            r matches Err(e) ==> !(spec_handle_event(old(self)@, ev@, fill_time as int).1
                is Done) && (e is PathParse <==> spec_handle_event(
                old(self)@,
                ev@,
                fill_time as int,
            ).1 is BadPath),
            r matches Err(e) ==> (e is ArchiveFormat <==> spec_handle_event(
                old(self)@,
                ev@,
                fill_time as int,
            ).1 is BadArchive),
            r matches Err(e) ==> (e is PackageIdMismatch <==> spec_handle_event(
                old(self)@,
                ev@,
                fill_time as int,
            ).1 is WrongIdentity),
    {
        match ev {
            FsEvent::Create(f) => {
                let od = f.on_disk.as_ref();
                proof {
                    lemma_opt_view(&f.on_disk, od);
                }
                self.flush(f.path.as_str(), od, fill_time)
            },
            FsEvent::Remove(f) => {
                let od = f.on_disk.as_ref();
                proof {
                    lemma_opt_view(&f.on_disk, od);
                }
                self.flush(f.path.as_str(), od, fill_time)
            },
            FsEvent::Write(f) => {
                let od = f.on_disk.as_ref();
                proof {
                    lemma_opt_view(&f.on_disk, od);
                }
                self.flush(f.path.as_str(), od, fill_time)
            },
            FsEvent::Rename(a, b) => {
                let oa = a.on_disk.as_ref();
                proof {
                    lemma_opt_view(&a.on_disk, oa);
                }
                let r1 = self.flush(a.path.as_str(), oa, fill_time);
                let ob = b.on_disk.as_ref();
                proof {
                    lemma_opt_view(&b.on_disk, ob);
                }
                let r2 = self.flush(b.path.as_str(), ob, fill_time);
                match (r1, r2) {
                    (Err(e1), Err(_)) => Err(e1),
                    _ => Ok(()),
                }
            },
        }
    }
}


/// The borrowed outcome views what the owned one does.
proof fn lemma_opt_view(owned: &Option<ArchiveOutcome>, borrowed: Option<&ArchiveOutcome>)
    requires
        borrowed is Some <==> owned is Some,
        borrowed is Some ==> owned->0 == *borrowed->0,
    ensures
        opt_outcome_view(borrowed) == (match owned {
            Some(o) => Some(o@),
            None => None,
        }),
{
}

} // verus!
