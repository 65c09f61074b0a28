//! The queue itself: grouping a directory listing by queue identifier,
//! classifying each group into an `Entity`, and deriving the summary `State`.

use vstd::prelude::*;

use crate::{Batch, BatchV, Entity, EntityV, State};

verus! {

/// What the control-file collaborator reports about a control file's
/// declared transfer type.
#[derive(Debug, Clone, Copy, PartialEq, Eq, Structural)]
pub enum Kind {
    Mail,
    News,
    Unrecognized,
}

/// One directory entry, already split by the listing collaborator into the
/// `C.`/`D.` prefix and the trailing queue identifier. Control entries carry
/// the transfer type read from the file's content.
#[derive(Debug, Clone, PartialEq, Eq)]
pub enum Entry {
    Control { filename: String, qid: String, kind: Kind },
    Data { filename: String, qid: String },
}

/// The queue identifier of a listing entry.
pub open spec fn entry_qid(e: Entry) -> Seq<char> {
    match e {
        Entry::Control { qid, .. } => qid@,
        Entry::Data { qid, .. } => qid@,
    }
}

/// Does some entry of the listing carry this queue identifier?
pub open spec fn listing_has_qid(l: Seq<Entry>, q: Seq<char>) -> bool {
    exists|i: int| 0 <= i < l.len() && entry_qid(l[i]) == q
}

/// All queue identifiers occurring in the listing.
pub open spec fn listing_qids(l: Seq<Entry>) -> Set<Seq<char>> {
    Set::new(|q: Seq<char>| listing_has_qid(l, q))
}

/// The filename and declared kind of the last control entry for `q`,
/// if any: on duplicates the most recently observed entry wins.
pub open spec fn last_control(l: Seq<Entry>, q: Seq<char>) -> Option<(Seq<char>, Kind)>
    decreases l.len(),
{
    if l.len() == 0 {
        Option::None
    } else {
        match l.last() {
            Entry::Control { filename, qid, kind } => if qid@ == q {
                Option::Some((filename@, kind))
            } else {
                last_control(l.drop_last(), q)
            },
            Entry::Data { .. } => last_control(l.drop_last(), q),
        }
    }
}

/// The filename of the last data entry for `q`, if any.
pub open spec fn last_data(l: Seq<Entry>, q: Seq<char>) -> Option<Seq<char>>
    decreases l.len(),
{
    if l.len() == 0 {
        Option::None
    } else {
        match l.last() {
            Entry::Data { filename, qid } => if qid@ == q {
                Option::Some(filename@)
            } else {
                last_data(l.drop_last(), q)
            },
            Entry::Control { .. } => last_data(l.drop_last(), q),
        }
    }
}

/// The control filename the listing pairs with `q` (meaningful only when a
/// control entry for `q` exists).
pub open spec fn cname(l: Seq<Entry>, q: Seq<char>) -> Seq<char> {
    match last_control(l, q) {
        Option::Some(p) => p.0,
        Option::None => Seq::empty(),
    }
}

/// The declared kind of the control file paired with `q`.
pub open spec fn kind_of(l: Seq<Entry>, q: Seq<char>) -> Kind {
    match last_control(l, q) {
        Option::Some(p) => p.1,
        Option::None => Kind::Unrecognized,
    }
}

/// The batch a scan of `l` forms for `q`.
pub open spec fn batch_of(l: Seq<Entry>, q: Seq<char>) -> BatchV {
    BatchV {
        c: match last_control(l, q) {
            Option::Some(p) => Option::Some(p.0),
            Option::None => Option::None,
        },
        d: last_data(l, q),
    }
}

/// Is a previously stored entity's marked flag carried over to a fresh
/// classification with batch `b`? Only a marked `Mail`/`News` record whose
/// batch composition is unchanged keeps its flag.
pub open spec fn marked_kept(e: EntityV, b: BatchV) -> bool {
    match e {
        EntityV::Mail { file, marked, .. } => marked && file == b,
        EntityV::News { file, marked, .. } => marked && file == b,
        _ => false,
    }
}

/// The entity a scan of listing `l` records for qid `q`, given the previously
/// stored map `prev` (which only the marked flags are carried over from).
pub open spec fn entity_for(l: Seq<Entry>, prev: Map<Seq<char>, EntityV>, q: Seq<char>) -> EntityV {
    match (last_control(l, q), last_data(l, q)) {
        (Option::Some(c), Option::Some(d)) => {
            let b = BatchV { c: Option::Some(c.0), d: Option::Some(d) };
            let m = prev.dom().contains(q) && marked_kept(prev[q], b);
            match c.1 {
                Kind::Mail => EntityV::Mail { qid: q, file: b, marked: m },
                Kind::News => EntityV::News { qid: q, file: b, marked: m },
                Kind::Unrecognized => EntityV::Invalid,
            }
        },
        (Option::Some(c), Option::None) => EntityV::Missing {
            qid: q,
            file: BatchV { c: Option::Some(c.0), d: Option::None },
            reason: "no D. file"@,
        },
        (Option::None, Option::Some(d)) => EntityV::Missing {
            qid: q,
            file: BatchV { c: Option::None, d: Option::Some(d) },
            reason: "no C. file"@,
        },
        (Option::None, Option::None) => EntityV::Invalid,
    }
}

/// The queue map a scan of `l` produces over the previous map `prev`.
pub open spec fn scan_map(l: Seq<Entry>, prev: Map<Seq<char>, EntityV>) -> Map<
    Seq<char>,
    EntityV,
> {
    Map::new(|q: Seq<char>| listing_has_qid(l, q), |q: Seq<char>| entity_for(l, prev, q))
}

/// Does a scan of `l` cache the control filename paired with `q`? It does
/// exactly when the recorded entity keeps a control member: an unclassifiable
/// pair is stored as `Invalid`, which carries no filenames.
pub open spec fn control_cached(l: Seq<Entry>, q: Seq<char>) -> bool {
    match (last_control(l, q), last_data(l, q)) {
        (Option::Some(c), Option::Some(_)) => c.1 != Kind::Unrecognized,
        (Option::Some(_), Option::None) => true,
        _ => false,
    }
}

/// The control filenames a scan of `l` caches.
pub open spec fn scan_fcache(l: Seq<Entry>) -> Set<Seq<char>> {
    Set::new(
        |p: Seq<char>|
            exists|q: Seq<char>| control_cached(l, q) && #[trigger] last_control(l, q) == Option::Some(
                (p, kind_of(l, q)),
            ),
    )
}

/// The queue identifier of entry `t` of the listing occurs in `qs`.
spec fn covered(l: Seq<Entry>, qs: Seq<String>, t: int) -> bool {
    exists|j: int| 0 <= j < qs.len() && (#[trigger] qs[j])@ == entry_qid(l[t])
}

/// Every entry of the listing has its queue identifier in `qs`.
spec fn qids_cover(l: Seq<Entry>, qs: Seq<String>) -> bool {
    forall|t: int| 0 <= t < l.len() ==> #[trigger] covered(l, qs, t)
}

/// The map a qid-keyed association list stands for (later keys win).
pub open spec fn qmap(s: Seq<(String, Entity)>) -> Map<Seq<char>, EntityV>
    decreases s.len(),
{
    if s.len() == 0 {
        Map::empty()
    } else {
        qmap(s.drop_last()).insert(s.last().0@, s.last().1@)
    }
}

/// The set of filenames a filename list stands for.
pub open spec fn fset(s: Seq<String>) -> Set<Seq<char>>
    decreases s.len(),
{
    if s.len() == 0 {
        Set::empty()
    } else {
        fset(s.drop_last()).insert(s.last()@)
    }
}

/// No two records share a queue identifier.
pub open spec fn keys_unique(s: Seq<(String, Entity)>) -> bool {
    forall|i: int, j: int| 0 <= i < j < s.len() ==> s[i].0@ != s[j].0@
}

/// No filename is listed twice.
pub open spec fn names_unique(s: Seq<String>) -> bool {
    forall|i: int, j: int| 0 <= i < j < s.len() ==> s[i]@ != s[j]@
}

/// The control member of an entity's batch, for the cache invariant.
pub open spec fn control_of(e: EntityV) -> Option<Seq<char>> {
    match e {
        EntityV::Missing { file, .. } => file.c,
        EntityV::Mail { file, .. } => file.c,
        EntityV::News { file, .. } => file.c,
        EntityV::Invalid => Option::None,
    }
}

/// A stored entity is internally consistent with its key: its qid matches,
/// a `Missing` record holds exactly one member file and a reason naming the
/// absent one, and a classified record holds both members.
pub open spec fn entity_ok(q: Seq<char>, e: EntityV) -> bool {
    match e {
        EntityV::Missing { qid, file, reason } => qid == q && (file.c is Some <==> file.d is None)
            && reason == (if file.d is None {
            "no D. file"@
        } else {
            "no C. file"@
        }),
        EntityV::Mail { qid, file, .. } => qid == q && file.c is Some && file.d is Some,
        EntityV::News { qid, file, .. } => qid == q && file.c is Some && file.d is Some,
        EntityV::Invalid => true,
    }
}

proof fn lemma_qmap_contains(s: Seq<(String, Entity)>, q: Seq<char>)
    ensures
        qmap(s).dom().contains(q) <==> exists|i: int| 0 <= i < s.len() && s[i].0@ == q,
    decreases s.len(),
{
    if s.len() == 0 {
    } else {
        lemma_qmap_contains(s.drop_last(), q);
        if s.last().0@ == q {
            assert(s[s.len() - 1].0@ == q);
        } else {
            if exists|i: int| 0 <= i < s.len() && s[i].0@ == q {
                let i = choose|i: int| 0 <= i < s.len() && s[i].0@ == q;
                assert(s.drop_last()[i] == s[i]);
            }
            if qmap(s).dom().contains(q) {
                let i = choose|i: int|
                    0 <= i < s.drop_last().len() && s.drop_last()[i].0@ == q;
                assert(s[i] == s.drop_last()[i]);
            }
        }
    }
}

proof fn lemma_qmap_index(s: Seq<(String, Entity)>, i: int)
    requires
        keys_unique(s),
        0 <= i < s.len(),
    ensures
        qmap(s).dom().contains(s[i].0@),
        qmap(s)[s[i].0@] == s[i].1@,
    decreases s.len(),
{
    if i == s.len() - 1 {
    } else {
        assert forall|a: int, b: int| 0 <= a < b < s.drop_last().len() implies s.drop_last()[a].0@
            != s.drop_last()[b].0@ by {
            assert(s.drop_last()[a] == s[a]);
            assert(s.drop_last()[b] == s[b]);
        }
        lemma_qmap_index(s.drop_last(), i);
        assert(s.drop_last()[i] == s[i]);
        assert(s[i].0@ != s[s.len() - 1].0@);
    }
}

proof fn lemma_fset_contains(s: Seq<String>, p: Seq<char>)
    ensures
        fset(s).contains(p) <==> exists|i: int| 0 <= i < s.len() && s[i]@ == p,
    decreases s.len(),
{
    if s.len() == 0 {
    } else {
        lemma_fset_contains(s.drop_last(), p);
        if s.last()@ == p {
            assert(s[s.len() - 1]@ == p);
        } else {
            if exists|i: int| 0 <= i < s.len() && s[i]@ == p {
                let i = choose|i: int| 0 <= i < s.len() && s[i]@ == p;
                assert(s.drop_last()[i] == s[i]);
            }
            if fset(s).contains(p) {
                let i = choose|i: int| 0 <= i < s.drop_last().len() && s.drop_last()[i]@ == p;
                assert(s[i] == s.drop_last()[i]);
            }
        }
    }
}

/// A qid that occurs in the listing leaves at least one member behind.
proof fn lemma_qid_present(l: Seq<Entry>, q: Seq<char>)
    requires
        listing_has_qid(l, q),
    ensures
        last_control(l, q) is Some || last_data(l, q) is Some,
    decreases l.len(),
{
    let i = choose|i: int| 0 <= i < l.len() && entry_qid(l[i]) == q;
    if i == l.len() - 1 {
        assert(l.last() == l[i]);
    } else {
        assert(l.drop_last()[i] == l[i]);
        lemma_qid_present(l.drop_last(), q);
    }
}

/// A paired control filename comes from some control entry of the listing.
proof fn lemma_last_control_has(l: Seq<Entry>, q: Seq<char>)
    requires
        last_control(l, q) is Some,
    ensures
        exists|i: int| 0 <= i < l.len() && l[i] is Control && entry_qid(l[i]) == q,
    decreases l.len(),
{
    if l.len() == 0 {
    } else {
        if l.last() is Control && entry_qid(l.last()) == q {
            assert(l[l.len() - 1] is Control && entry_qid(l[l.len() - 1]) == q);
        } else {
            lemma_last_control_has(l.drop_last(), q);
            let i = choose|i: int|
                0 <= i < l.drop_last().len() && l.drop_last()[i] is Control && entry_qid(
                    l.drop_last()[i],
                ) == q;
            assert(l[i] == l.drop_last()[i]);
        }
    }
}

/// A paired data filename comes from some data entry of the listing.
proof fn lemma_last_data_has(l: Seq<Entry>, q: Seq<char>)
    requires
        last_data(l, q) is Some,
    ensures
        exists|i: int| 0 <= i < l.len() && l[i] is Data && entry_qid(l[i]) == q,
    decreases l.len(),
{
    if l.len() == 0 {
    } else {
        if l.last() is Data && entry_qid(l.last()) == q {
            assert(l[l.len() - 1] is Data && entry_qid(l[l.len() - 1]) == q);
        } else {
            lemma_last_data_has(l.drop_last(), q);
            let i = choose|i: int|
                0 <= i < l.drop_last().len() && l.drop_last()[i] is Data && entry_qid(
                    l.drop_last()[i],
                ) == q;
            assert(l[i] == l.drop_last()[i]);
        }
    }
}

/// Linear membership test against the set a filename list stands for.
fn has_name(v: &Vec<String>, s: &String) -> (r: bool)
    ensures
        r == fset(v@).contains(s@),
{
    let mut i: usize = 0;
    while i < v.len()
        invariant
            i <= v@.len(),
            forall|j: int| 0 <= j < i ==> v@[j]@ != s@,
        decreases v@.len() - i,
    {
        if v[i].eq(s) {
            proof {
                lemma_fset_contains(v@, s@);
            }
            return true;
        }
        i = i + 1;
    }
    proof {
        lemma_fset_contains(v@, s@);
    }
    false
}

/// Does this batch pair exactly the given control and data filenames?
fn batch_matches(file: &Batch, cf: &String, df: &String) -> (r: bool)
    ensures
        r == (file@ == (BatchV { c: Option::Some(cf@), d: Option::Some(df@) })),
{
    match (&file.c, &file.d) {
        (Option::Some(oc), Option::Some(od)) => oc.eq(cf) && od.eq(df),
        (Option::Some(_), Option::None) => false,
        (Option::None, Option::Some(_)) => false,
        (Option::None, Option::None) => false,
    }
}

/// Was the previously stored record for `qid` a marked `Mail`/`News` entity
/// whose batch already paired `cf` with `df`? Such a flag survives a rescan.
fn prev_marked(prev: &Vec<(String, Entity)>, qid: &String, cf: &String, df: &String) -> (m: bool)
    requires
        keys_unique(prev@),
    ensures
        m == (qmap(prev@).dom().contains(qid@) && marked_kept(
            qmap(prev@)[qid@],
            BatchV { c: Option::Some(cf@), d: Option::Some(df@) },
        )),
{
    let mut i: usize = 0;
    while i < prev.len()
        invariant
            i <= prev@.len(),
            keys_unique(prev@),
            forall|j: int| 0 <= j < i ==> prev@[j].0@ != qid@,
        decreases prev@.len() - i,
    {
        if prev[i].0.eq(qid) {
            proof {
                lemma_qmap_index(prev@, i as int);
            }
            let r = match &prev[i].1 {
                Entity::Mail { file, marked, .. } => *marked && batch_matches(file, cf, df),
                Entity::News { file, marked, .. } => *marked && batch_matches(file, cf, df),
                _ => false,
            };
            return r;
        }
        i = i + 1;
    }
    proof {
        lemma_qmap_contains(prev@, qid@);
    }
    false
}

/// How many records of the list hold a `Mail` entity.
pub open spec fn count_mails(s: Seq<(String, Entity)>) -> nat
    decreases s.len(),
{
    if s.len() == 0 {
        0
    } else {
        count_mails(s.drop_last()) + if s.last().1 is Mail {
            1nat
        } else {
            0nat
        }
    }
}

/// How many records of the list hold a `News` entity.
pub open spec fn count_news(s: Seq<(String, Entity)>) -> nat
    decreases s.len(),
{
    if s.len() == 0 {
        0
    } else {
        count_news(s.drop_last()) + if s.last().1 is News {
            1nat
        } else {
            0nat
        }
    }
}

/// How many records of the list hold a `Missing` entity.
pub open spec fn count_missing(s: Seq<(String, Entity)>) -> nat
    decreases s.len(),
{
    if s.len() == 0 {
        0
    } else {
        count_missing(s.drop_last()) + if s.last().1 is Missing {
            1nat
        } else {
            0nat
        }
    }
}

/// How many records hold a `Missing` entity whose data file is absent.
pub open spec fn count_dmissing(s: Seq<(String, Entity)>) -> nat
    decreases s.len(),
{
    if s.len() == 0 {
        0
    } else {
        count_dmissing(s.drop_last()) + if s.last().1@ matches EntityV::Missing { file, .. }
            && file.d is None {
            1nat
        } else {
            0nat
        }
    }
}

/// How many records hold a `Missing` entity whose control file is absent
/// (its data member is still present).
pub open spec fn count_cmissing(s: Seq<(String, Entity)>) -> nat
    decreases s.len(),
{
    if s.len() == 0 {
        0
    } else {
        count_cmissing(s.drop_last()) + if s.last().1@ matches EntityV::Missing { file, .. }
            && file.d is Some {
            1nat
        } else {
            0nat
        }
    }
}

/// How many records hold an `Invalid` entity.
pub open spec fn count_invalid(s: Seq<(String, Entity)>) -> nat
    decreases s.len(),
{
    if s.len() == 0 {
        0
    } else {
        count_invalid(s.drop_last()) + if s.last().1 is Invalid {
            1nat
        } else {
            0nat
        }
    }
}

/// The reconciliation engine: a qid-keyed map of classified entities and a
/// control-filename cache, refreshed by `scan`.
#[derive(Debug)]
pub struct Queue {
    /// The base directory of the scanned site.
    pub path: String,
    /// The queue itself, keyed by qid.
    pub queue: Vec<(String, Entity)>,
    /// Filename cache for reloads (control filenames of stored entities).
    pub fcache: Vec<String>,
}

impl View for Queue {
    type V = Map<Seq<char>, EntityV>;

    open spec fn view(&self) -> Map<Seq<char>, EntityV> {
        qmap(self.queue@)
    }
}

impl Queue {
    /// The set of cached control filenames.
    pub open spec fn cache_set(&self) -> Set<Seq<char>> {
        fset(self.fcache@)
    }

    /// Well-formedness: unique keys and cached names, internally consistent
    /// entities, and the cache holds exactly the stored control members.
    pub open spec fn wf(&self) -> bool {
        &&& keys_unique(self.queue@)
        &&& names_unique(self.fcache@)
        &&& forall|i: int|
            0 <= i < self.queue@.len() ==> entity_ok(
                self.queue@[i].0@,
                #[trigger] self.queue@[i].1@,
            )
        &&& forall|i: int|
            0 <= i < self.queue@.len() ==> match control_of(#[trigger] self.queue@[i].1@) {
                Option::Some(p) => fset(self.fcache@).contains(p),
                Option::None => true,
            }
        &&& forall|p: Seq<char>|
            fset(self.fcache@).contains(p) ==> exists|i: int|
                0 <= i < self.queue@.len() && control_of(#[trigger] self.queue@[i].1@)
                    == Option::Some(p)
    }

    /// Create a new empty queue.
    pub fn new() -> (q: Queue)
        ensures
            q.path@ == Seq::<char>::empty(),
            q.queue@.len() == 0,
            q.fcache@.len() == 0,
            q@ == Map::<Seq<char>, EntityV>::empty(),
            q.wf(),
    {
        Queue { path: String::new(), queue: Vec::new(), fcache: Vec::new() }
    }

    /// Queue length.
    pub fn len(&self) -> (n: usize)
        ensures
            n == self.queue@.len(),
    {
        self.queue.len()
    }

    /// Check sanity of the queue: find which `C.` has no `D.` and such, and
    /// fold the result into the summary verdict.
    pub fn check(&self) -> (st: State)
        ensures
            (st is Empty) <==> self.queue@.len() == 0,
            (st is Clean) <==> (self.queue@.len() > 0 && count_missing(self.queue@) == 0),
            (st is Damaged) <==> count_missing(self.queue@) > 0,
            st matches State::Clean { nfiles } ==> nfiles == self.queue@.len(),
            st matches State::Damaged { dmissing, cmissing } ==> dmissing == count_dmissing(
                self.queue@,
            ) && cmissing == count_cmissing(self.queue@),
    {
        let ghost s = self.queue@;
        let mut nmissing: usize = 0;
        let mut dmissing: usize = 0;
        let mut cmissing: usize = 0;
        let mut i: usize = 0;
        while i < self.queue.len()
            invariant
                i <= s.len(),
                self.queue@ == s,
                nmissing <= i,
                dmissing <= i,
                cmissing <= i,
                nmissing == count_missing(s.take(i as int)),
                dmissing == count_dmissing(s.take(i as int)),
                cmissing == count_cmissing(s.take(i as int)),
            decreases s.len() - i,
        {
            match &self.queue[i].1 {
                Entity::Missing { file, .. } => {
                    nmissing = nmissing + 1;
                    match &file.d {
                        Option::None => {
                            dmissing = dmissing + 1;
                        },
                        Option::Some(_) => {
                            cmissing = cmissing + 1;
                        },
                    }
                },
                _ => {},
            }
            proof {
                assert(s.take(i + 1).drop_last() =~= s.take(i as int));
                assert(s.take(i + 1).last() == s[i as int]);
            }
            i = i + 1;
        }
        proof {
            assert(s.take(s.len() as int) =~= s);
        }
        if self.queue.len() == 0 {
            State::Empty
        } else if nmissing == 0 {
            State::Clean { nfiles: self.queue.len() }
        } else {
            State::Damaged { dmissing, cmissing }
        }
    }

    /// Reconcile the queue against a directory listing: group the entries by
    /// queue identifier, classify each group, and rebuild the map and the
    /// control-filename cache. Marked flags of previously stored `Mail`/`News`
    /// records survive when the batch composition is unchanged.
    pub fn scan(&mut self, listing: &Vec<Entry>)
        requires
            old(self).wf(),
        ensures
            final(self).wf(),
            final(self).path == old(self).path,
            final(self)@ == scan_map(listing@, old(self)@),
            final(self).cache_set() == scan_fcache(listing@),
    {
        let ghost l: Seq<Entry> = listing@;
        let ghost prevm: Map<Seq<char>, EntityV> = qmap(self.queue@);

        // First pass: the distinct queue identifiers, in order of first
        // appearance.
        let mut qids: Vec<String> = Vec::new();
        let mut i: usize = 0;
        while i < listing.len()
            invariant
                i <= l.len(),
                listing@ == l,
                forall|a: int, b: int| 0 <= a < b < qids@.len() ==> qids@[a]@ != qids@[b]@,
                forall|j: int| 0 <= j < qids@.len() ==> listing_has_qid(l, #[trigger] qids@[j]@),
                forall|t: int|
                    0 <= t < i ==> exists|j: int|
                        0 <= j < qids@.len() && qids@[j]@ == #[trigger] entry_qid(l[t]),
            decreases l.len() - i,
        {
            let q0: &String = match &listing[i] {
                Entry::Control { qid, .. } => qid,
                Entry::Data { qid, .. } => qid,
            };
            proof {
                assert(entry_qid(l[i as int]) == q0@);
            }
            let ghost qids0 = qids@;
            if !has_name(&qids, q0) {
                proof {
                    lemma_fset_contains(qids@, q0@);
                }
                qids.push(q0.clone());
                proof {
                    assert(qids@[qids@.len() - 1]@ == q0@);
                    assert forall|t2: int| 0 <= t2 < i + 1 implies exists|j: int|
                        0 <= j < qids@.len() && qids@[j]@ == #[trigger] entry_qid(l[t2]) by {
                        if t2 == i {
                            assert(qids@[qids@.len() - 1]@ == entry_qid(l[t2]));
                        } else {
                            let j = choose|j: int|
                                0 <= j < qids0.len() && qids0[j]@ == entry_qid(l[t2]);
                            assert(qids@[j]@ == entry_qid(l[t2]));
                        }
                    }
                }
            } else {
                proof {
                    lemma_fset_contains(qids@, q0@);
                    let j = choose|j: int| 0 <= j < qids@.len() && qids@[j]@ == q0@;
                    assert forall|t2: int| 0 <= t2 < i + 1 implies exists|j2: int|
                        0 <= j2 < qids@.len() && qids@[j2]@ == #[trigger] entry_qid(l[t2]) by {
                        if t2 == i {
                            assert(qids@[j]@ == entry_qid(l[t2]));
                        }
                    }
                }
            }
            i = i + 1;
        }

        proof {
            assert(i == l.len());
            assert forall|t: int| 0 <= t < l.len() implies #[trigger] covered(l, qids@, t) by {
                assert(0 <= t < i);
                let j = choose|j: int|
                    0 <= j < qids@.len() && qids@[j]@ == entry_qid(l[t]);
                assert(0 <= j < qids@.len() && (qids@[j])@ == entry_qid(l[t]));
            }
            assert(qids_cover(l, qids@));
        }

        // Second pass: classify each group and rebuild map and cache.
        let mut nq: Vec<(String, Entity)> = Vec::new();
        let mut nf: Vec<String> = Vec::new();
        let mut k: usize = 0;
        while k < qids.len()
            invariant
                k <= qids@.len(),
                listing@ == l,
                self.queue@ == old(self).queue@,
                self.fcache@ == old(self).fcache@,
                self.path == old(self).path,
                old(self).wf(),
                prevm == qmap(self.queue@),
                forall|a: int, b: int| 0 <= a < b < qids@.len() ==> qids@[a]@ != qids@[b]@,
                forall|j: int| 0 <= j < qids@.len() ==> listing_has_qid(l, #[trigger] qids@[j]@),
                qids_cover(l, qids@),
                nq@.len() == k,
                forall|j: int|
                    0 <= j < k ==> (#[trigger] nq@[j]).0@ == qids@[j]@ && nq@[j].1@ == entity_for(
                        l,
                        prevm,
                        qids@[j]@,
                    ),
                forall|a: int, b: int| 0 <= a < b < nf@.len() ==> nf@[a]@ != nf@[b]@,
                forall|j: int|
                    0 <= j < k && control_cached(l, #[trigger] qids@[j]@) ==> fset(
                        nf@,
                    ).contains(cname(l, qids@[j]@)),
                forall|pp: Seq<char>|
                    fset(nf@).contains(pp) ==> exists|j: int|
                        0 <= j < k && control_cached(l, #[trigger] qids@[j]@) && cname(
                            l,
                            qids@[j]@,
                        ) == pp,
            decreases qids@.len() - k,
        {
            let qid: &String = &qids[k];
            let ghost q: Seq<char> = qid@;

            // Replay the listing for this identifier: the most recently
            // observed control and data entries win.
            let mut copt: Option<String> = Option::None;
            let mut kd: Kind = Kind::Unrecognized;
            let mut dopt: Option<String> = Option::None;
            let mut t: usize = 0;
            while t < listing.len()
                invariant
                    t <= l.len(),
                    listing@ == l,
                    q == qid@,
                    match copt {
                        Option::Some(f) => last_control(l.take(t as int), q) == Option::Some(
                            (f@, kd),
                        ),
                        Option::None => last_control(l.take(t as int), q) is None,
                    },
                    match dopt {
                        Option::Some(f) => last_data(l.take(t as int), q) == Option::Some(f@),
                        Option::None => last_data(l.take(t as int), q) is None,
                    },
                decreases l.len() - t,
            {
                match &listing[t] {
                    Entry::Control { filename, qid: eqid, kind } => {
                        if eqid.eq(qid) {
                            copt = Option::Some(filename.clone());
                            kd = *kind;
                        }
                    },
                    Entry::Data { filename, qid: eqid } => {
                        if eqid.eq(qid) {
                            dopt = Option::Some(filename.clone());
                        }
                    },
                }
                proof {
                    assert(l.take(t + 1).drop_last() =~= l.take(t as int));
                    assert(l.take(t + 1).last() == l[t as int]);
                }
                t = t + 1;
            }
            proof {
                assert(l.take(l.len() as int) =~= l);
            }

            // Classify the group, carrying a marked flag over where the
            // batch composition is unchanged, and remember the control
            // filename the cache is owed.
            let (ent, cached): (Entity, Option<String>) = match (copt, dopt) {
                (Option::Some(cf), Option::Some(df)) => match kd {
                    Kind::Unrecognized => (Entity::Invalid, Option::None),
                    Kind::Mail => {
                        let m = prev_marked(&self.queue, qid, &cf, &df);
                        let cn = cf.clone();
                        (
                            Entity::Mail {
                                qid: qid.clone(),
                                file: Batch { c: Option::Some(cf), d: Option::Some(df) },
                                marked: m,
                            },
                            Option::Some(cn),
                        )
                    },
                    Kind::News => {
                        let m = prev_marked(&self.queue, qid, &cf, &df);
                        let cn = cf.clone();
                        (
                            Entity::News {
                                qid: qid.clone(),
                                file: Batch { c: Option::Some(cf), d: Option::Some(df) },
                                marked: m,
                            },
                            Option::Some(cn),
                        )
                    },
                },
                (Option::Some(cf), Option::None) => {
                    let cn = cf.clone();
                    (
                        Entity::Missing {
                            qid: qid.clone(),
                            file: Batch { c: Option::Some(cf), d: Option::None },
                            reason: "no D. file".to_owned(),
                        },
                        Option::Some(cn),
                    )
                },
                (Option::None, Option::Some(df)) => (
                    Entity::Missing {
                        qid: qid.clone(),
                        file: Batch { c: Option::None, d: Option::Some(df) },
                        reason: "no C. file".to_owned(),
                    },
                    Option::None,
                ),
                (Option::None, Option::None) => {
                    proof {
                        lemma_qid_present(l, q);
                        assert(false);
                    }
                    (Entity::Invalid, Option::None)
                },
            };
            proof {
                assert(ent@ == entity_for(l, prevm, q));
                assert(match cached {
                    Option::Some(p) => control_cached(l, q) && p@ == cname(l, q),
                    Option::None => !control_cached(l, q),
                });
            }
            nq.push((qid.clone(), ent));
            match cached {
                Option::Some(p) => {
                    if !has_name(&nf, &p) {
                        let ghost nf0 = nf@;
                        proof {
                            lemma_fset_contains(nf0, p@);
                        }
                        nf.push(p);
                        proof {
                            assert(nf@.drop_last() =~= nf0);
                            assert(nf@.last()@ == cname(l, q));
                        }
                    }
                },
                Option::None => {},
            }
            k = k + 1;
        }

        // The rebuilt association list stands for exactly the scan map, and
        // the rebuilt cache for exactly the scanned control filenames.
        proof {
            assert forall|a: int, b: int| 0 <= a < b < nq@.len() implies nq@[a].0@
                != nq@[b].0@ by {}
            let m1 = qmap(nq@);
            let m2 = scan_map(l, prevm);
            assert forall|qq: Seq<char>| #[trigger] m1.dom().contains(qq) implies m2.dom().contains(
                qq,
            ) && m1[qq] == m2[qq] by {
                lemma_qmap_contains(nq@, qq);
                let j = choose|j: int| 0 <= j < nq@.len() && nq@[j].0@ == qq;
                lemma_qmap_index(nq@, j);
                assert(listing_has_qid(l, qq));
            }
            assert forall|qq: Seq<char>| #[trigger] m2.dom().contains(qq) implies m1.dom().contains(
                qq,
            ) by {
                assert(listing_has_qid(l, qq));
                let t = choose|t: int| 0 <= t < l.len() && #[trigger] entry_qid(l[t]) == qq;
                assert(covered(l, qids@, t));
                let j = choose|j: int|
                    0 <= j < qids@.len() && (#[trigger] qids@[j])@ == entry_qid(l[t]);
                assert(nq@[j].0@ == qq);
                lemma_qmap_contains(nq@, qq);
            }
            assert(m1 =~= m2);
            assert forall|pp: Seq<char>| fset(nf@).contains(pp) implies scan_fcache(l).contains(
                pp,
            ) by {
                let j = choose|j: int|
                    0 <= j < qids@.len() && control_cached(l, qids@[j]@) && cname(l, qids@[j]@)
                        == pp;
                assert(last_control(l, qids@[j]@) == Option::Some((pp, kind_of(l, qids@[j]@))));
            }
            assert forall|pp: Seq<char>| scan_fcache(l).contains(pp) implies fset(nf@).contains(
                pp,
            ) by {
                let qq = choose|qq: Seq<char>|
                    control_cached(l, qq) && #[trigger] last_control(l, qq) == Option::Some(
                        (pp, kind_of(l, qq)),
                    );
                lemma_last_control_has(l, qq);
                let t = choose|t: int|
                    0 <= t < l.len() && l[t] is Control && #[trigger] entry_qid(l[t]) == qq;
                assert(covered(l, qids@, t));
                let j = choose|j: int|
                    0 <= j < qids@.len() && (#[trigger] qids@[j])@ == entry_qid(l[t]);
                assert(control_cached(l, qids@[j]@) && cname(l, qids@[j]@) == pp);
            }
            assert(fset(nf@) =~= scan_fcache(l));
            assert forall|j: int| 0 <= j < nq@.len() implies entity_ok(
                nq@[j].0@,
                #[trigger] nq@[j].1@,
            ) by {
                assert(nq@[j].1@ == entity_for(l, prevm, qids@[j]@));
            }
            assert forall|j: int| 0 <= j < nq@.len() implies (match control_of(
                #[trigger] nq@[j].1@,
            ) {
                Option::Some(pp) => fset(nf@).contains(pp),
                Option::None => true,
            }) by {
                assert(nq@[j].1@ == entity_for(l, prevm, qids@[j]@));
                if control_cached(l, qids@[j]@) {
                    assert(fset(nf@).contains(cname(l, qids@[j]@)));
                }
            }
            assert forall|pp: Seq<char>| fset(nf@).contains(pp) implies exists|i2: int|
                0 <= i2 < nq@.len() && control_of(#[trigger] nq@[i2].1@) == Option::Some(pp) by {
                let j = choose|j: int|
                    0 <= j < qids@.len() && control_cached(l, qids@[j]@) && cname(l, qids@[j]@)
                        == pp;
                assert(nq@[j].1@ == entity_for(l, prevm, qids@[j]@));
                assert(control_of(nq@[j].1@) == Option::Some(pp));
            }
        }
        self.queue = nq;
        self.fcache = nf;
    }

    /// Help func to return stats about mails.
    pub fn mails(&self) -> (n: usize)
        ensures
            n == count_mails(self.queue@),
    {
        let ghost s = self.queue@;
        let mut n: usize = 0;
        let mut i: usize = 0;
        while i < self.queue.len()
            invariant
                i <= s.len(),
                self.queue@ == s,
                n <= i,
                n == count_mails(s.take(i as int)),
            decreases s.len() - i,
        {
            match &self.queue[i].1 {
                Entity::Mail { .. } => {
                    n = n + 1;
                },
                _ => {},
            }
            proof {
                assert(s.take(i + 1).drop_last() =~= s.take(i as int));
                assert(s.take(i + 1).last() == s[i as int]);
            }
            i = i + 1;
        }
        proof {
            assert(s.take(s.len() as int) =~= s);
        }
        n
    }

    /// Help func to return stats about news batches.
    pub fn news(&self) -> (n: usize)
        ensures
            n == count_news(self.queue@),
    {
        let ghost s = self.queue@;
        let mut n: usize = 0;
        let mut i: usize = 0;
        while i < self.queue.len()
            invariant
                i <= s.len(),
                self.queue@ == s,
                n <= i,
                n == count_news(s.take(i as int)),
            decreases s.len() - i,
        {
            match &self.queue[i].1 {
                Entity::News { .. } => {
                    n = n + 1;
                },
                _ => {},
            }
            proof {
                assert(s.take(i + 1).drop_last() =~= s.take(i as int));
                assert(s.take(i + 1).last() == s[i as int]);
            }
            i = i + 1;
        }
        proof {
            assert(s.take(s.len() as int) =~= s);
        }
        n
    }

    /// Help func to return stats about missing/damaged batches.
    pub fn missing(&self) -> (n: usize)
        ensures
            n == count_missing(self.queue@),
    {
        let ghost s = self.queue@;
        let mut n: usize = 0;
        let mut i: usize = 0;
        while i < self.queue.len()
            invariant
                i <= s.len(),
                self.queue@ == s,
                n <= i,
                n == count_missing(s.take(i as int)),
            decreases s.len() - i,
        {
            match &self.queue[i].1 {
                Entity::Missing { .. } => {
                    n = n + 1;
                },
                _ => {},
            }
            proof {
                assert(s.take(i + 1).drop_last() =~= s.take(i as int));
                assert(s.take(i + 1).last() == s[i as int]);
            }
            i = i + 1;
        }
        proof {
            assert(s.take(s.len() as int) =~= s);
        }
        n
    }
}

/// Totality: a scan records exactly the queue identifiers of the listing,
/// and every one of them is classified by the classification rule.
pub proof fn lemma_scan_totality(l: Seq<Entry>, prev: Map<Seq<char>, EntityV>)
    ensures
        scan_map(l, prev).dom() == listing_qids(l),
        forall|q: Seq<char>|
            listing_qids(l).contains(q) ==> #[trigger] scan_map(l, prev)[q] == entity_for(
                l,
                prev,
                q,
            ),
{
    assert(scan_map(l, prev).dom() =~= listing_qids(l));
}

/// Pairing completeness: a qid with both members present and classifiable
/// control content is recorded as `Mail` or `News`, never as `Missing`.
pub proof fn lemma_scan_pairing(
    l: Seq<Entry>,
    prev: Map<Seq<char>, EntityV>,
    q: Seq<char>,
)
    requires
        last_control(l, q) is Some,
        last_data(l, q) is Some,
        kind_of(l, q) != Kind::Unrecognized,
    ensures
        scan_map(l, prev).dom().contains(q),
        !(scan_map(l, prev)[q] is Missing),
        kind_of(l, q) == Kind::Mail ==> (scan_map(l, prev)[q] matches EntityV::Mail {
            qid,
            file,
            ..
        } && qid == q && file == batch_of(l, q)),
        kind_of(l, q) == Kind::News ==> (scan_map(l, prev)[q] matches EntityV::News {
            qid,
            file,
            ..
        } && qid == q && file == batch_of(l, q)),
{
    lemma_last_control_has(l, q);
}

/// Damage detection: a qid with only a control file is recorded as `Missing`
/// with a reason naming the data file, and one with only a data file as
/// `Missing` with a reason naming the control file.
pub proof fn lemma_scan_damage(l: Seq<Entry>, prev: Map<Seq<char>, EntityV>, q: Seq<char>)
    ensures
        (last_control(l, q) is Some && last_data(l, q) is None) ==> scan_map(l, prev).dom(
        ).contains(q) && scan_map(l, prev)[q] == (EntityV::Missing {
            qid: q,
            file: batch_of(l, q),
            reason: "no D. file"@,
        }),
        (last_control(l, q) is None && last_data(l, q) is Some) ==> scan_map(l, prev).dom(
        ).contains(q) && scan_map(l, prev)[q] == (EntityV::Missing {
            qid: q,
            file: batch_of(l, q),
            reason: "no C. file"@,
        }),
{
    if last_control(l, q) is Some && last_data(l, q) is None {
        lemma_last_control_has(l, q);
    }
    if last_control(l, q) is None && last_data(l, q) is Some {
        lemma_last_data_has(l, q);
    }
}

/// State derivation: the two damage tallies split the `Missing` records
/// exactly, one for every absent data file and one for every absent control
/// file.
pub proof fn lemma_missing_split(s: Seq<(String, Entity)>)
    ensures
        count_dmissing(s) + count_cmissing(s) == count_missing(s),
    decreases s.len(),
{
    if s.len() > 0 {
        lemma_missing_split(s.drop_last());
    }
}

/// Aggregate correctness: every record is counted by exactly one of the four
/// aggregates, so their sum is the queue length.
pub proof fn lemma_aggregate(s: Seq<(String, Entity)>)
    ensures
        count_mails(s) + count_news(s) + count_missing(s) + count_invalid(s) == s.len(),
    decreases s.len(),
{
    if s.len() > 0 {
        lemma_aggregate(s.drop_last());
    }
}

/// A qid whose control and data pairing is the same in two listings is given
/// the same record when the second scan starts from the first scan's map.
proof fn lemma_entity_stable(
    l1: Seq<Entry>,
    l2: Seq<Entry>,
    prev: Map<Seq<char>, EntityV>,
    q: Seq<char>,
)
    requires
        last_control(l2, q) == last_control(l1, q),
        last_data(l2, q) == last_data(l1, q),
        listing_has_qid(l1, q),
    ensures
        entity_for(l2, scan_map(l1, prev), q) == entity_for(l1, prev, q),
{
    let base = scan_map(l1, prev);
    assert(base.dom().contains(q));
    assert(base[q] == entity_for(l1, prev, q));
}

/// Idempotence: scanning the same listing again, starting from the map the
/// first scan produced, yields that map unchanged (and, the cache being a
/// function of the listing alone, an unchanged cache).
pub proof fn lemma_scan_idempotent(l: Seq<Entry>, prev: Map<Seq<char>, EntityV>)
    ensures
        scan_map(l, scan_map(l, prev)) == scan_map(l, prev),
{
    let m1 = scan_map(l, prev);
    let m2 = scan_map(l, m1);
    assert forall|q: Seq<char>| #[trigger] m2.dom().contains(q) implies m1.dom().contains(q)
        && m2[q] == m1[q] by {
        lemma_entity_stable(l, l, prev, q);
    }
    assert(m2 =~= m1);
}

/// With unique keys, the map a record list stands for has exactly one entry
/// per record, so `Queue::len` counts the distinct queue identifiers.
pub proof fn lemma_qmap_len(s: Seq<(String, Entity)>)
    requires
        keys_unique(s),
    ensures
        qmap(s).dom().finite(),
        qmap(s).dom().len() == s.len(),
    decreases s.len(),
{
    if s.len() == 0 {
    } else {
        assert forall|a: int, b: int| 0 <= a < b < s.drop_last().len() implies s.drop_last()[a].0@
            != s.drop_last()[b].0@ by {
            assert(s.drop_last()[a] == s[a]);
            assert(s.drop_last()[b] == s[b]);
        }
        lemma_qmap_len(s.drop_last());
        lemma_qmap_contains(s.drop_last(), s.last().0@);
        assert forall|i: int| 0 <= i < s.drop_last().len() implies s.drop_last()[i].0@
            != s.last().0@ by {
            assert(s.drop_last()[i] == s[i]);
        }
        assert(!qmap(s.drop_last()).dom().contains(s.last().0@));
    }
}

/// A data entry of the listing pairs a data file with its qid.
proof fn lemma_data_at(l: Seq<Entry>, i: int)
    requires
        0 <= i < l.len(),
        l[i] is Data,
    ensures
        last_data(l, entry_qid(l[i])) is Some,
    decreases l.len(),
{
    if i == l.len() - 1 {
    } else {
        if l.last() is Data && entry_qid(l.last()) == entry_qid(l[i]) {
        } else {
            assert(l.drop_last()[i] == l[i]);
            lemma_data_at(l.drop_last(), i);
        }
    }
}

/// Removing a data entry leaves every qid's control pairing unchanged.
proof fn lemma_remove_data_keeps_controls(l: Seq<Entry>, i: int, q: Seq<char>)
    requires
        0 <= i < l.len(),
        l[i] is Data,
    ensures
        last_control(l.remove(i), q) == last_control(l, q),
    decreases l.len(),
{
    l.remove_ensures(i);
    let l2 = l.remove(i);
    if i == l.len() - 1 {
        assert(l2 =~= l.drop_last());
    } else {
        l.drop_last().remove_ensures(i);
        assert(l2.last() == l[l.len() - 1]);
        assert(l2.drop_last() =~= l.drop_last().remove(i));
        assert(l.drop_last()[i] == l[i]);
        lemma_remove_data_keeps_controls(l.drop_last(), i, q);
    }
}

/// Removing one qid's data entry leaves other qids' data pairing unchanged.
proof fn lemma_remove_data_keeps_other_data(l: Seq<Entry>, i: int, q: Seq<char>)
    requires
        0 <= i < l.len(),
        l[i] is Data,
        q != entry_qid(l[i]),
    ensures
        last_data(l.remove(i), q) == last_data(l, q),
    decreases l.len(),
{
    l.remove_ensures(i);
    let l2 = l.remove(i);
    if i == l.len() - 1 {
        assert(l2 =~= l.drop_last());
    } else {
        l.drop_last().remove_ensures(i);
        assert(l2.last() == l[l.len() - 1]);
        assert(l2.drop_last() =~= l.drop_last().remove(i));
        assert(l.drop_last()[i] == l[i]);
        lemma_remove_data_keeps_other_data(l.drop_last(), i, q);
    }
}

/// After removing a qid's only data entry, no data file is paired with it.
proof fn lemma_remove_only_data(l: Seq<Entry>, i: int)
    requires
        0 <= i < l.len(),
        l[i] is Data,
        forall|j: int|
            0 <= j < l.len() && j != i ==> !((#[trigger] l[j]) is Data && entry_qid(l[j])
                == entry_qid(l[i])),
    ensures
        last_data(l.remove(i), entry_qid(l[i])) is None,
{
    let q0 = entry_qid(l[i]);
    let l2 = l.remove(i);
    l.remove_ensures(i);
    if last_data(l2, q0) is Some {
        lemma_last_data_has(l2, q0);
        let t = choose|t: int| 0 <= t < l2.len() && l2[t] is Data && #[trigger] entry_qid(l2[t])
            == q0;
        if t < i {
            assert(l2[t] == l[t]);
        } else {
            assert(l2[t] == l[t + 1]);
        }
    }
}

/// Removing a qid's data entry keeps the set of listed qids, as long as the
/// qid still has a control entry.
proof fn lemma_remove_qids(l: Seq<Entry>, i: int)
    requires
        0 <= i < l.len(),
        l[i] is Data,
        last_control(l, entry_qid(l[i])) is Some,
    ensures
        listing_qids(l.remove(i)) == listing_qids(l),
        listing_has_qid(l.remove(i), entry_qid(l[i])),
{
    let q0 = entry_qid(l[i]);
    let l2 = l.remove(i);
    l.remove_ensures(i);
    assert forall|q: Seq<char>| listing_has_qid(l2, q) implies listing_has_qid(l, q) by {
        let t = choose|t: int| 0 <= t < l2.len() && #[trigger] entry_qid(l2[t]) == q;
        if t < i {
            assert(entry_qid(l[t]) == q);
        } else {
            assert(entry_qid(l[t + 1]) == q);
        }
    }
    assert forall|q: Seq<char>| listing_has_qid(l, q) implies listing_has_qid(l2, q) by {
        let t = choose|t: int| 0 <= t < l.len() && #[trigger] entry_qid(l[t]) == q;
        if t == i {
            lemma_last_control_has(l, q);
            let t2 = choose|t2: int|
                0 <= t2 < l.len() && l[t2] is Control && #[trigger] entry_qid(l[t2]) == q;
            if t2 < i {
                assert(entry_qid(l2[t2]) == q);
            } else {
                assert(entry_qid(l2[t2 - 1]) == q);
            }
        } else if t < i {
            assert(entry_qid(l2[t]) == q);
        } else {
            assert(entry_qid(l2[t - 1]) == q);
        }
    }
    assert(listing_qids(l2) =~= listing_qids(l));
    assert(listing_has_qid(l, q0));
}

/// Incremental consistency: after a baseline scan, rescanning a listing from
/// which the single data entry of one classified batch has been removed
/// degrades exactly that record from `Mail`/`News` to `Missing`, leaves every
/// other record unchanged, and leaves the control-filename cache unchanged
/// (the degraded record still holds its control file).
pub proof fn lemma_scan_data_removed(l: Seq<Entry>, prev: Map<Seq<char>, EntityV>, i: int)
    requires
        0 <= i < l.len(),
        l[i] is Data,
        forall|j: int|
            0 <= j < l.len() && j != i ==> !((#[trigger] l[j]) is Data && entry_qid(l[j])
                == entry_qid(l[i])),
        last_control(l, entry_qid(l[i])) is Some,
        kind_of(l, entry_qid(l[i])) != Kind::Unrecognized,
    ensures
        listing_qids(l.remove(i)) == listing_qids(l),
        scan_map(l, prev)[entry_qid(l[i])] is Mail || scan_map(l, prev)[entry_qid(l[i])] is News,
        scan_map(l.remove(i), scan_map(l, prev))[entry_qid(l[i])] == (EntityV::Missing {
            qid: entry_qid(l[i]),
            file: BatchV { c: Option::Some(cname(l, entry_qid(l[i]))), d: Option::None },
            reason: "no D. file"@,
        }),
        forall|q: Seq<char>|
            listing_has_qid(l, q) && q != entry_qid(l[i]) ==> #[trigger] scan_map(
                l.remove(i),
                scan_map(l, prev),
            )[q] == scan_map(l, prev)[q],
        scan_fcache(l.remove(i)) == scan_fcache(l),
{
    let q0 = entry_qid(l[i]);
    let l2 = l.remove(i);
    let base = scan_map(l, prev);
    lemma_data_at(l, i);
    lemma_scan_pairing(l, prev, q0);
    lemma_remove_qids(l, i);
    lemma_remove_data_keeps_controls(l, i, q0);
    lemma_remove_only_data(l, i);
    assert(scan_map(l2, base)[q0] == entity_for(l2, base, q0));
    assert forall|q: Seq<char>| listing_has_qid(l, q) && q != q0 implies #[trigger] scan_map(
        l2,
        base,
    )[q] == base[q] by {
        lemma_remove_data_keeps_controls(l, i, q);
        lemma_remove_data_keeps_other_data(l, i, q);
        lemma_entity_stable(l, l2, prev, q);
        assert(listing_qids(l2).contains(q));
        assert(scan_map(l2, base)[q] == entity_for(l2, base, q));
        assert(base[q] == entity_for(l, prev, q));
    }
    assert forall|p: Seq<char>| scan_fcache(l2).contains(p) implies scan_fcache(l).contains(
        p,
    ) by {
        let q = choose|q: Seq<char>|
            control_cached(l2, q) && #[trigger] last_control(l2, q) == Option::Some(
                (p, kind_of(l2, q)),
            );
        lemma_remove_data_keeps_controls(l, i, q);
        if q != q0 {
            lemma_remove_data_keeps_other_data(l, i, q);
        }
        assert(control_cached(l, q) && last_control(l, q) == Option::Some((p, kind_of(l, q))));
    }
    assert forall|p: Seq<char>| scan_fcache(l).contains(p) implies scan_fcache(l2).contains(
        p,
    ) by {
        let q = choose|q: Seq<char>|
            control_cached(l, q) && #[trigger] last_control(l, q) == Option::Some(
                (p, kind_of(l, q)),
            );
        lemma_remove_data_keeps_controls(l, i, q);
        if q != q0 {
            lemma_remove_data_keeps_other_data(l, i, q);
        }
        assert(control_cached(l2, q) && last_control(l2, q) == Option::Some((p, kind_of(l2, q))));
    }
    assert(scan_fcache(l2) =~= scan_fcache(l));
}

impl Default for Queue {
    fn default() -> (q: Queue)
        ensures
            q.path@ == Seq::<char>::empty(),
            q.queue@.len() == 0,
            q.fcache@.len() == 0,
            q.wf(),
    {
        Queue::new()
    }
}

} // verus!

