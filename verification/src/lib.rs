//! Reconciliation engine for a UUCP-style spool directory: paired control
//! (`C.`) and data (`D.`) files are grouped by queue identifier, classified
//! into batch kinds, and summarised by a consistency check.

use vstd::prelude::*;

pub mod queue;

verus! {

/// Describes a UUCP site: its name, its reconciled queue, and whether the
/// expected directory layout was found when the site was constructed.
#[derive(Debug)]
pub struct Site {
    /// UUCP name.
    pub name: String,
    /// The queue itself.
    pub q: queue::Queue,
    /// Is this a valid site?
    pub valid: bool,
}

impl Site {
    /// Well-formedness of the owned queue.
    pub open spec fn wf(&self) -> bool {
        self.q.wf()
    }

    /// Create a new site: `valid` will be true exactly when the site
    /// directory exists and contains both the `C.` and the `D.` directory.
    /// The three flags are the path-existence collaborator's answers for
    /// those three paths; construction itself never fails.
    pub fn new(site: &str, base_exists: bool, cdir_exists: bool, ddir_exists: bool) -> (s: Site)
        ensures
            s.name@ == site@,
            s.valid == (base_exists && cdir_exists && ddir_exists),
            s.q@ == Map::<Seq<char>, EntityV>::empty(),
            s.q.queue@.len() == 0,
            s.q.fcache@.len() == 0,
            s.wf(),
    {
        Site {
            name: site.to_owned(),
            q: queue::Queue::new(),
            valid: base_exists && cdir_exists && ddir_exists,
        }
    }

    /// Scan the given directory listing and create queue entries for each
    /// identified batch. On an invalid site this is a documented no-op, not
    /// an error, so call chains stay composable.
    pub fn scan(&mut self, listing: &Vec<queue::Entry>) -> (r: &mut Site)
        requires
            old(self).wf(),
        ensures
            r.name == old(self).name,
            r.valid == old(self).valid,
            r.wf(),
            old(self).valid ==> r.q@ == queue::scan_map(listing@, old(self).q@)
                && r.q.cache_set() == queue::scan_fcache(listing@) && r.q.path == old(self).q.path,
            !old(self).valid ==> r.q == old(self).q,
            *final(self) == *final(r),
    {
        if self.valid {
            self.q.scan(listing);
        }
        self
    }

    /// Return validity of a given site.
    pub fn is_valid(&self) -> (b: bool)
        ensures
            b == self.valid,
    {
        self.valid
    }

    /// Return a reference to the queue.
    pub fn queue(&self) -> (q: &queue::Queue)
        ensures
            *q == self.q,
    {
        &self.q
    }
}

/// The (control, data) filename pairing for one queue identifier.
/// At least one of the two members is present in every batch a scan stores.
#[derive(Debug, Clone, PartialEq, Eq)]
pub struct Batch {
    /// Control file from the `C.` directory.
    pub c: Option<String>,
    /// Data file from the `D.` directory.
    pub d: Option<String>,
}

/// Mathematical model of a `Batch`: the two member filenames as sequences.
pub struct BatchV {
    pub c: Option<Seq<char>>,
    pub d: Option<Seq<char>>,
}

impl View for Batch {
    type V = BatchV;

    open spec fn view(&self) -> BatchV {
        BatchV {
            c: match self.c {
                Option::Some(s) => Option::Some(s@),
                Option::None => Option::None,
            },
            d: match self.d {
                Option::Some(s) => Option::Some(s@),
                Option::None => Option::None,
            },
        }
    }
}

/// The classified record stored per queue identifier.
#[derive(Debug, Clone, PartialEq, Eq)]
pub enum Entity {
    /// Damaged batch: one of the two member files is absent.
    Missing { qid: String, file: Batch, reason: String },
    /// Mail-related batch.
    Mail { qid: String, file: Batch, marked: bool },
    /// News-related batch.
    News { qid: String, file: Batch, marked: bool },
    /// Both files present but the control content is unclassifiable.
    Invalid,
}

/// Mathematical model of an `Entity`.
pub enum EntityV {
    Missing { qid: Seq<char>, file: BatchV, reason: Seq<char> },
    Mail { qid: Seq<char>, file: BatchV, marked: bool },
    News { qid: Seq<char>, file: BatchV, marked: bool },
    Invalid,
}

impl View for Entity {
    type V = EntityV;

    open spec fn view(&self) -> EntityV {
        match self {
            Entity::Missing { qid, file, reason } => EntityV::Missing {
                qid: qid@,
                file: file@,
                reason: reason@,
            },
            Entity::Mail { qid, file, marked } => EntityV::Mail {
                qid: qid@,
                file: file@,
                marked: *marked,
            },
            Entity::News { qid, file, marked } => EntityV::News {
                qid: qid@,
                file: file@,
                marked: *marked,
            },
            Entity::Invalid => EntityV::Invalid,
        }
    }
}

impl Default for Entity {
    /// The placeholder record: a qid that could not be classified.
    fn default() -> (r: Self)
        ensures
            r == Entity::Invalid,
    {
        Entity::Invalid
    }
}

/// Summary health verdict of a queue, derived on demand by `Queue::check`.
#[derive(Debug, PartialEq, Eq, Structural)]
pub enum State {
    Clean { nfiles: usize },
    Damaged { dmissing: usize, cmissing: usize },
    Empty,
}

impl Default for State {
    fn default() -> (r: Self)
        ensures
            r == State::Empty,
    {
        State::Empty
    }
}

/// Stats about a given site.
#[derive(Debug, PartialEq, Eq, Structural)]
pub struct Stats {
    /// Total number of files.
    pub nfiles: usize,
    /// Size of the directory in bytes.
    pub nbytes: u64,
}

impl Default for Stats {
    fn default() -> (r: Self)
        ensures
            r == (Stats { nfiles: 0, nbytes: 0 }),
    {
        Stats { nfiles: 0, nbytes: 0 }
    }
}

} // verus!
