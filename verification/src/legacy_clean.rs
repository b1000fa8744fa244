//! Pruning buckets that came back from another device out of this device's own staging
//! databases.
//!
//! Such buckets have been imported from a peer and exported again. They are dead weight in a
//! file that every peer replicates. Only this device's own staging databases are ever changed,
//! and in them only buckets whose name says that they came from elsewhere. The staging databases
//! themselves are not deleted.

use vstd::prelude::*;

use crate::text::{chars_of, decimal_text, join, signed_decimal_text};
#[allow(unused_imports)]
use crate::text::{decimal, fed_lines, lemma_fed_lines_push, signed_decimal, texts};

verus! {

/// A database is worth a `VACUUM` if that gives back at least this part of it, even with nothing
/// left to delete.
pub const RECLAIM_RATIO: u64 = 10;

/// Whether a text occurs in another at this place.
pub open spec fn occurs_at(text: Seq<char>, part: Seq<char>, at: int) -> bool {
    0 <= at && at + part.len() <= text.len() && text.subrange(at, at + part.len()) == part
}

/// Whether a text occurs in another.
pub open spec fn occurs_in(text: Seq<char>, part: Seq<char>) -> bool {
    exists|at: int| #[trigger] occurs_at(text, part, at)
}

/// What the name of a bucket holds that came from another device.
pub open spec fn synced_marker() -> Seq<char> {
    "-synced-from-"@
}

/// Whether the bucket came from another device.
pub open spec fn synced(bucket_id: Seq<char>) -> bool {
    occurs_in(bucket_id, synced_marker())
}

fn found_at(chars: &Vec<char>, part: &Vec<char>, at: usize) -> (r: bool)
    requires
        at + part@.len() <= chars@.len(),
    ensures
        r == occurs_at(chars@, part@, at as int),
{
    let length: usize = chars.len();
    let mut i: usize = 0;
    while i < part.len()
        invariant
            i <= part.len(),
            length == chars@.len(),
            at + part@.len() <= length,
            forall|k: int| 0 <= k < i ==> #[trigger] part@[k] == chars@[at + k],
        decreases part.len() - i,
    {
        if chars[at + i] != part[i] {
            proof {
                let there = chars@.subrange(at as int, at + part@.len());
                assert(there[i as int] == chars@[at + i]);
            }
            return false;
        }
        i += 1;
    }
    proof {
        assert(chars@.subrange(at as int, at + part@.len()) =~= part@);
    }
    true
}

/// Whether a bucket came from another device, by its name.
pub fn is_synced_bucket_id(bucket_id: &str) -> (r: bool)
    ensures
        r == synced(bucket_id@),
{
    let chars = chars_of(bucket_id);
    let part = chars_of("-synced-from-");
    if part.len() > chars.len() {
        proof {
            assert forall|at: int| !#[trigger] occurs_at(bucket_id@, synced_marker(), at) by {}
        }
        return false;
    }
    let last: usize = chars.len() - part.len();
    let mut at: usize = 0;
    loop
        invariant
            chars@ == bucket_id@,
            part@ == synced_marker(),
            part@.len() + last == chars@.len(),
            at <= last,
            forall|k: int| 0 <= k < at ==> !#[trigger] occurs_at(bucket_id@, synced_marker(), k),
        decreases last - at,
    {
        if found_at(&chars, &part, at) {
            assert(occurs_at(bucket_id@, synced_marker(), at as int));
            return true;
        }
        if at == last {
            return false;
        }
        at += 1;
    }
}

/// What a database of the synced folder holds.
#[derive(Debug)]
pub struct Inspection {
    /// The buckets and how many events each of them has.
    pub buckets: Vec<(String, i64)>,
    /// How many bytes `VACUUM` would give back.
    pub reclaimable: u64,
}

/// An entry of the synced folder.
#[derive(Debug)]
pub struct SyncEntry {
    /// Whether it is a staging database of this device.
    pub own_staging: bool,
    pub db_path: Option<String>,
    pub db_size: Option<u64>,
    /// What the database holds, or why it was not looked into.
    pub inspected: Result<Inspection, String>,
}

/// A staging database of this device, and what pruning would do to it.
#[derive(Debug)]
pub struct PruneTarget {
    pub db_path: String,
    pub db_size: u64,
    /// The buckets to delete and how many events each of them has.
    pub buckets: Vec<(String, i64)>,
    /// How many bytes `VACUUM` would give back.
    pub reclaimable: u64,
}

/// What pruning a database did.
#[derive(Debug, Clone, Copy, PartialEq, Eq, Structural)]
pub struct PruneOutcome {
    pub buckets: usize,
    pub events: usize,
    pub size_before: u64,
    pub size_after: u64,
}

/// What a list of buckets stands for.
pub open spec fn counted_views(buckets: Seq<(String, i64)>) -> Seq<(Seq<char>, i64)> {
    buckets.map_values(|b: (String, i64)| (b.0@, b.1))
}

/// What a [`PruneTarget`] stands for.
#[verifier::ext_equal]
pub struct PruneTargetView {
    pub db_path: Seq<char>,
    pub db_size: u64,
    pub buckets: Seq<(Seq<char>, i64)>,
    pub reclaimable: u64,
}

impl View for PruneTarget {
    type V = PruneTargetView;

    open spec fn view(&self) -> PruneTargetView {
        PruneTargetView {
            db_path: self.db_path@,
            db_size: self.db_size,
            buckets: counted_views(self.buckets@),
            reclaimable: self.reclaimable,
        }
    }
}

/// What a list of targets stands for.
pub open spec fn target_views(targets: Seq<PruneTarget>) -> Seq<PruneTargetView> {
    targets.map_values(|t: PruneTarget| t@)
}

/// Whether a database is worth a `VACUUM`.
pub open spec fn worth_vacuum(reclaimable: int, db_size: int) -> bool {
    reclaimable > 0 && reclaimable * RECLAIM_RATIO >= db_size
}

/// The product of two numbers, or the largest number if it is larger.
fn saturating_product(a: u64, b: u64) -> (r: u64)
    ensures
        r == if a * b <= u64::MAX {
            a * b
        } else {
            u64::MAX as int
        },
{
    proof {
        assert(0 <= a * b <= u64::MAX * u64::MAX) by (nonlinear_arith)
            requires
                0 <= a <= u64::MAX,
                0 <= b <= u64::MAX,
        ;
    }
    let product: u128 = a as u128 * b as u128;
    if product <= u64::MAX as u128 {
        product as u64
    } else {
        u64::MAX
    }
}

/// Whether a database is worth a `VACUUM`: one whose free pages are a tenth of it or more. It
/// rarely comes to that but after a prune whose `VACUUM` failed, which is tried again so.
pub fn needs_vacuum(reclaimable: u64, db_size: u64) -> (r: bool)
    ensures
        r == worth_vacuum(reclaimable as int, db_size as int),
{
    reclaimable > 0 && saturating_product(reclaimable, RECLAIM_RATIO) >= db_size
}

/// The buckets that came from another device.
pub open spec fn synced_buckets(buckets: Seq<(Seq<char>, i64)>) -> Seq<(Seq<char>, i64)>
    decreases buckets.len(),
{
    if buckets.len() == 0 {
        Seq::empty()
    } else {
        let earlier = synced_buckets(buckets.drop_last());
        if synced(buckets.last().0) {
            earlier.push(buckets.last())
        } else {
            earlier
        }
    }
}

fn keep_synced(buckets: Vec<(String, i64)>) -> (r: Vec<(String, i64)>)
    ensures
        counted_views(r@) == synced_buckets(counted_views(buckets@)),
{
    let ghost all = counted_views(buckets@);
    let mut r: Vec<(String, i64)> = Vec::new();
    proof {
        assert(counted_views(r@) =~= synced_buckets(all.take(0)));
    }
    for bucket in it: buckets
        invariant
            it.seq() == buckets@,
            all == counted_views(buckets@),
            counted_views(r@) == synced_buckets(all.take(it.index())),
    {
        let ghost before = counted_views(r@);
        proof {
            let i = it.index();
            assert(all[i] == (bucket.0@, bucket.1));
            assert(all.take(i + 1).drop_last() =~= all.take(i));
            assert(all.take(i + 1).last() == all[i]);
        }
        if is_synced_bucket_id(bucket.0.as_str()) {
            r.push(bucket);
            proof {
                assert(counted_views(r@) =~= before.push((bucket.0@, bucket.1)));
            }
        }
    }
    proof {
        assert(all.take(all.len() as int) =~= all);
    }
    r
}

/// Whether an entry is looked into: a staging database of this device.
pub open spec fn inspects(entry: SyncEntry) -> bool {
    entry.own_staging && entry.db_path is Some
}

/// Whether an entry of the synced folder is looked into. Nothing but the staging databases of
/// this device is.
pub fn is_inspected(own_staging: bool, has_path: bool) -> (r: bool)
    ensures
        r == (own_staging && has_path),
{
    own_staging && has_path
}

/// What pruning would do to a database, if anything.
pub open spec fn target_of(
    db_path: Seq<char>,
    db_size: Option<u64>,
    buckets: Seq<(Seq<char>, i64)>,
    reclaimable: u64,
) -> Option<PruneTargetView> {
    let size = match db_size {
        Some(size) => size,
        None => 0,
    };
    let synced = synced_buckets(buckets);
    if synced.len() > 0 || worth_vacuum(reclaimable as int, size as int) {
        Some(PruneTargetView { db_path, db_size: size, buckets: synced, reclaimable })
    } else {
        None
    }
}

/// What pruning would do to an entry, if anything.
pub open spec fn entry_target(entry: SyncEntry) -> Option<PruneTargetView> {
    match (inspects(entry), entry.inspected) {
        (true, Ok(found)) => target_of(
            entry.db_path->Some_0@,
            entry.db_size,
            counted_views(found.buckets@),
            found.reclaimable,
        ),
        _ => None,
    }
}

/// The targets among the entries.
pub open spec fn targets_of(entries: Seq<SyncEntry>) -> Seq<PruneTargetView>
    decreases entries.len(),
{
    if entries.len() == 0 {
        Seq::empty()
    } else {
        let earlier = targets_of(entries.drop_last());
        match entry_target(entries.last()) {
            Some(target) => earlier.push(target),
            None => earlier,
        }
    }
}

/// Why staging databases of this device were not looked into.
pub open spec fn skipped_of(entries: Seq<SyncEntry>) -> Seq<Seq<char>>
    decreases entries.len(),
{
    if entries.len() == 0 {
        Seq::empty()
    } else {
        let earlier = skipped_of(entries.drop_last());
        let entry = entries.last();
        if !inspects(entry) {
            earlier
        } else {
            match entry.inspected {
                Ok(_) => earlier,
                Err(reason) => earlier.push(reason@),
            }
        }
    }
}

/// The staging databases of this device that hold buckets from another device, or that an
/// earlier prune has left too large, and why others were not looked into. Those are left alone
/// and make the cleanup incomplete.
pub fn find_prune_targets(entries: Vec<SyncEntry>) -> (r: (Vec<PruneTarget>, Vec<String>))
    ensures
        target_views(r.0@) == targets_of(entries@),
        texts(r.1@) == skipped_of(entries@),
{
    let ghost all = entries@;
    let mut targets: Vec<PruneTarget> = Vec::new();
    let mut errors: Vec<String> = Vec::new();
    proof {
        assert(target_views(targets@) =~= targets_of(all.take(0)));
        assert(texts(errors@) =~= skipped_of(all.take(0)));
    }
    for entry in it: entries
        invariant
            it.seq() == all,
            target_views(targets@) == targets_of(all.take(it.index())),
            texts(errors@) == skipped_of(all.take(it.index())),
    {
        let ghost before = target_views(targets@);
        let ghost before_errors = texts(errors@);
        proof {
            let i = it.index();
            assert(entry == all[i]);
            assert(all.take(i + 1).drop_last() =~= all.take(i));
            assert(all.take(i + 1).last() == entry);
        }
        if entry.own_staging {
            if let Some(db_path) = entry.db_path {
                match entry.inspected {
                    Ok(found) => {
                        let buckets = keep_synced(found.buckets);
                        let db_size: u64 = match entry.db_size {
                            Some(size) => size,
                            None => 0,
                        };
                        if buckets.len() > 0 || needs_vacuum(found.reclaimable, db_size) {
                            let target = PruneTarget {
                                db_path,
                                db_size,
                                buckets,
                                reclaimable: found.reclaimable,
                            };
                            targets.push(target);
                            proof {
                                assert(target_views(targets@) =~= before.push(target@));
                            }
                        }
                    },
                    Err(reason) => {
                        errors.push(reason);
                        proof {
                            assert(texts(errors@) =~= before_errors.push(reason@));
                        }
                    },
                }
            }
        }
    }
    proof {
        assert(all.take(all.len() as int) =~= all);
    }
    (targets, errors)
}

proof fn lemma_synced_buckets(buckets: Seq<(Seq<char>, i64)>)
    ensures
        forall|i: int|
            0 <= i < synced_buckets(buckets).len() ==> synced(
                (#[trigger] synced_buckets(buckets)[i]).0,
            ),
    decreases buckets.len(),
{
    if buckets.len() > 0 {
        let earlier = synced_buckets(buckets.drop_last());
        lemma_synced_buckets(buckets.drop_last());
        assert forall|i: int| 0 <= i < synced_buckets(buckets).len() implies synced(
            (#[trigger] synced_buckets(buckets)[i]).0,
        ) by {
            if i < earlier.len() {
                assert(synced_buckets(buckets)[i] == earlier[i]);
            }
        }
    }
}

/// Whether a target is the database of an entry that is a staging database of this device.
pub open spec fn target_is_own(target: PruneTargetView, entries: Seq<SyncEntry>) -> bool {
    exists|i: int|
        0 <= i < entries.len() && inspects(#[trigger] entries[i]) && entries[i].inspected is Ok
            && entries[i].db_path->Some_0@ == target.db_path
}

/// Only staging databases of this device that were looked into are ever targets, and all that
/// would be deleted of them are buckets that came from another device.
pub proof fn law_only_own_copies_of_others_are_pruned(entries: Seq<SyncEntry>)
    ensures
        forall|i: int|
            0 <= i < targets_of(entries).len() ==> {
                let target = #[trigger] targets_of(entries)[i];
                &&& target_is_own(target, entries)
                &&& forall|k: int|
                    0 <= k < target.buckets.len() ==> synced((#[trigger] target.buckets[k]).0)
            },
    decreases entries.len(),
{
    if entries.len() > 0 {
        let head = entries.drop_last();
        let earlier = targets_of(head);
        let all = targets_of(entries);
        law_only_own_copies_of_others_are_pruned(head);
        let entry = entries.last();
        assert forall|i: int| 0 <= i < all.len() implies {
            let target = #[trigger] all[i];
            &&& target_is_own(target, entries)
            &&& forall|k: int|
                0 <= k < target.buckets.len() ==> synced((#[trigger] target.buckets[k]).0)
        } by {
            if i < earlier.len() {
                assert(all[i] == earlier[i]);
                let j = choose|j: int|
                    0 <= j < head.len() && inspects(#[trigger] head[j]) && head[j].inspected is Ok
                        && head[j].db_path->Some_0@ == all[i].db_path;
                assert(entries[j] == head[j]);
            } else {
                assert(entries[entries.len() - 1] == entry);
                lemma_synced_buckets(counted_views(entry.inspected->Ok_0.buckets@));
            }
        }
    }
}

/// Refuses a path that leads out of the synced folder, or to another place than it says.
///
/// Whose database it is is decided from the path, but what is opened is what the path resolves
/// to. A link to a database of a peer would have that peer's data deleted. `resolved` is what
/// the path resolves to and whether that is the place it says, or why that is not known.
pub fn ensure_no_symlink(
    db_path: &str,
    sync_dir: &str,
    inside: bool,
    resolved: Result<(String, bool), String>,
) -> (r: Result<(), String>)
    ensures
        match r {
            Ok(_) => inside && resolved is Ok && resolved->Ok_0.1,
            Err(reason) => if !inside {
                reason@ == db_path@ + " is outside the sync dir "@ + sync_dir@
            } else {
                match resolved {
                    Err(why) => reason@ == why@,
                    Ok((place, same)) => !same && reason@ == db_path@ + " resolves to "@ + place@
                        + " through a symlink; refusing to modify it"@,
                }
            },
        },
{
    if !inside {
        let mut reason = join(db_path, " is outside the sync dir ");
        reason.append(sync_dir);
        return Err(reason);
    }
    match resolved {
        Err(why) => Err(why),
        Ok((place, same)) => {
            if same {
                Ok(())
            } else {
                let mut reason = join(db_path, " resolves to ");
                reason.append(place.as_str());
                reason.append(" through a symlink; refusing to modify it");
                Err(reason)
            }
        },
    }
}

/// The bytes of so many free pages of one size. A negative number counts as none, and what does
/// not fit counts as the largest number.
pub open spec fn free_bytes(free: i64, page: i64) -> int {
    let product = (if free > 0 {
        free as int
    } else {
        0
    }) * (if page > 0 {
        page as int
    } else {
        0
    });
    if product <= u64::MAX {
        product
    } else {
        u64::MAX as int
    }
}

/// How many bytes `VACUUM` would give back, by the number of free pages and the size of one. A
/// negative number counts as none.
pub fn reclaimable_bytes(free: i64, page: i64) -> (bytes: u64)
    ensures
        bytes == free_bytes(free, page),
{
    let free: u64 = if free > 0 {
        free as u64
    } else {
        0
    };
    let page: u64 = if page > 0 {
        page as u64
    } else {
        0
    };
    saturating_product(free, page)
}

/// Whether all the buckets came from another device.
pub open spec fn all_synced(bucket_ids: Seq<Seq<char>>) -> bool {
    forall|i: int| 0 <= i < bucket_ids.len() ==> synced(#[trigger] bucket_ids[i])
}

/// Refuses to delete a bucket that did not come from another device, and names the first such.
pub fn check_prunable(bucket_ids: &Vec<String>) -> (r: Result<(), String>)
    ensures
        r is Ok <==> all_synced(texts(bucket_ids@)),
        r matches Err(reason) ==> exists|i: int|
            0 <= i < bucket_ids@.len() && !synced(#[trigger] texts(bucket_ids@)[i]) && all_synced(
                texts(bucket_ids@).take(i),
            ) && reason@ == "refusing to prune first-hand bucket '"@ + texts(bucket_ids@)[i] + "'"@,
{
    let ghost all = texts(bucket_ids@);
    let mut i: usize = 0;
    while i < bucket_ids.len()
        invariant
            all == texts(bucket_ids@),
            i <= bucket_ids.len(),
            forall|k: int| 0 <= k < i ==> synced(#[trigger] all[k]),
        decreases bucket_ids.len() - i,
    {
        if !is_synced_bucket_id(bucket_ids[i].as_str()) {
            let mut reason = join("refusing to prune first-hand bucket '", bucket_ids[i].as_str());
            reason.append("'");
            proof {
                assert(!synced(all[i as int]));
                let before = all.take(i as int);
                assert forall|k: int| 0 <= k < before.len() implies synced(
                    #[trigger] before[k],
                ) by {
                    assert(before[k] == all[k]);
                }
            }
            return Err(reason);
        }
        i += 1;
    }
    Ok(())
}

impl PruneOutcome {
    /// What pruning has done when it starts.
    pub fn new(size_before: u64) -> (outcome: PruneOutcome)
        ensures
            outcome == (PruneOutcome {
                buckets: 0,
                events: 0,
                size_before,
                size_after: size_before,
            }),
    {
        PruneOutcome { buckets: 0, events: 0, size_before, size_after: size_before }
    }

    /// Takes what became of a bucket: how many events went with it, or that it was gone already.
    pub fn bucket_pruned(&mut self, events: Option<usize>)
        requires
            events matches Some(n) ==> old(self).events + n <= usize::MAX && old(self).buckets
                < usize::MAX,
        ensures
            *final(self) == match events {
                Some(n) => PruneOutcome {
                    buckets: (old(self).buckets + 1) as usize,
                    events: (old(self).events + n) as usize,
                    ..*old(self)
                },
                None => *old(self),
            },
    {
        if let Some(n) = events {
            self.events = self.events + n;
            self.buckets = self.buckets + 1;
        }
    }
}

/// Whether `VACUUM` runs after the buckets are deleted: whenever there are free pages, so that
/// a second run finishes what an interrupted one has left.
pub fn runs_vacuum(free_pages: i64) -> (r: bool)
    ensures
        r == (free_pages > 0),
{
    free_pages > 0
}

/// What to say when `VACUUM` fails.
pub fn vacuum_failure(db_path: &str, reason: &str) -> (text: String)
    ensures
        text@ == db_path@ + ": VACUUM failed ("@ + reason@
            + "); deleted buckets stay deleted but the file will not shrink until it runs — re-run --clean-legacy (stop aw-sync first if it is busy)"@,
{
    let mut text = join(db_path, ": VACUUM failed (");
    text.append(reason);
    text.append(
        "); deleted buckets stay deleted but the file will not shrink until it runs — re-run --clean-legacy (stop aw-sync first if it is busy)",
    );
    text
}

/// How the sizes of a target are written.
#[derive(Debug)]
pub struct TargetSizes {
    pub db_size: String,
    pub reclaimable: String,
}

/// How many events the buckets have.
pub open spec fn event_total(buckets: Seq<(Seq<char>, i64)>) -> int
    decreases buckets.len(),
{
    if buckets.len() == 0 {
        0
    } else {
        event_total(buckets.drop_last()) + buckets.last().1
    }
}

/// How many events the buckets of all the targets have.
pub open spec fn targets_event_total(targets: Seq<PruneTargetView>) -> int
    decreases targets.len(),
{
    if targets.len() == 0 {
        0
    } else {
        targets_event_total(targets.drop_last()) + event_total(targets.last().buckets)
    }
}

/// How many buckets the targets have.
pub open spec fn bucket_total(targets: Seq<PruneTargetView>) -> nat
    decreases targets.len(),
{
    if targets.len() == 0 {
        0
    } else {
        bucket_total(targets.drop_last()) + targets.last().buckets.len()
    }
}

/// The lines on the buckets of a target.
pub open spec fn bucket_lines(buckets: Seq<(Seq<char>, i64)>) -> Seq<char>
    decreases buckets.len(),
{
    if buckets.len() == 0 {
        Seq::empty()
    } else {
        bucket_lines(buckets.drop_last()) + ("    "@ + buckets.last().0 + "  "@ + signed_decimal(
            buckets.last().1 as int,
        ) + " events\n"@)
    }
}

/// The lines on a target.
pub open spec fn target_lines(
    target: PruneTargetView,
    db_size: Seq<char>,
    reclaimable: Seq<char>,
) -> Seq<char> {
    "  "@ + target.db_path + " (own staging, "@ + db_size + ")\n"@ + bucket_lines(target.buckets)
        + if target.buckets.len() == 0 {
        "    no re-exported buckets left, but "@ + reclaimable
            + " is reclaimable by VACUUM (an earlier run did not finish)\n"@
    } else {
        Seq::empty()
    }
}

/// The lines on the targets.
pub open spec fn targets_lines(targets: Seq<PruneTargetView>, sizes: Seq<TargetSizes>) -> Seq<char>
    decreases targets.len(),
{
    if targets.len() == 0 {
        Seq::empty()
    } else {
        targets_lines(targets.drop_last(), sizes) + target_lines(
            targets.last(),
            sizes[targets.len() - 1].db_size@,
            sizes[targets.len() - 1].reclaimable@,
        )
    }
}

/// The lines on what was not looked into.
pub open spec fn skipped_lines(skipped: Seq<Seq<char>>) -> Seq<char>
    decreases skipped.len(),
{
    if skipped.len() == 0 {
        Seq::empty()
    } else {
        skipped_lines(skipped.drop_last()) + ("  ! skipped: "@ + skipped.last() + "\n"@)
    }
}

/// The line on all the targets together.
pub open spec fn summary_line(targets: Seq<PruneTargetView>) -> Seq<char> {
    "  "@ + decimal(bucket_total(targets)) + " re-exported buckets, "@ + signed_decimal(
        targets_event_total(targets),
    ) + " events in "@ + decimal(targets.len()) + " db(s).\n"@
}

/// What is said of a run that could not look into everything.
pub open spec fn incomplete(skipped: nat) -> Seq<char> {
    "cleanup incomplete: "@ + decimal(skipped) + " own staging db(s) skipped"@
}

/// How a run ends in which all went well but for what was skipped.
pub open spec fn end_without_failures(skipped: nat) -> Result<(), Seq<char>> {
    if skipped == 0 {
        Ok(())
    } else {
        Err(incomplete(skipped))
    }
}

/// The lines above all that a cleanup says. They are said before anything is looked into.
pub fn clean_heading() -> (text: String)
    ensures
        text@ == "\nLegacy cleanup (ActivityWatch/aw-server-rust#689)\n"@,
{
    "\nLegacy cleanup (ActivityWatch/aw-server-rust#689)\n".to_string()
}

/// What a cleanup says below its heading before it changes anything.
pub open spec fn opening_report(
    targets: Seq<PruneTargetView>,
    sizes: Seq<TargetSizes>,
    skipped: Seq<Seq<char>>,
    dry_run: bool,
) -> Seq<char> {
    skipped_lines(skipped) + if targets.len() == 0 {
        "  no other own staging db holds re-exported …-synced-from-… buckets\n"@
    } else {
        targets_lines(targets, sizes) + summary_line(targets) + if dry_run {
            "  dry run: nothing changed. Re-run without --dry-run to delete them. The deletion replicates to every device sharing this folder; those devices already ignore these buckets on pull.\n"@
        } else {
            Seq::empty()
        }
    }
}

/// What a cleanup says, and how it ends if it goes no further.
#[derive(Debug)]
pub struct CleanReport {
    pub text: String,
    /// How the cleanup ends, if nothing is to be changed.
    pub end: Option<Result<(), String>>,
}

/// What the end of a run stands for.
pub open spec fn end_view(end: Result<(), String>) -> Result<(), Seq<char>> {
    match end {
        Ok(_) => Ok(()),
        Err(reason) => Err(reason@),
    }
}

fn end_of(skipped: usize) -> (end: Result<(), String>)
    ensures
        end_view(end) == end_without_failures(skipped as nat),
{
    if skipped == 0 {
        Ok(())
    } else {
        let number = decimal_text(skipped as u128);
        let mut text = join("cleanup incomplete: ", number.as_str());
        text.append(" own staging db(s) skipped");
        Err(text)
    }
}

/// Whether no sum of the numbers of events leaves 64 bits on the way.
pub open spec fn event_sums_fit(targets: Seq<PruneTargetView>) -> bool {
    forall|i: int, k: int|
        0 <= i < targets.len() && 0 <= k <= targets[i].buckets.len() ==> i64::MIN
            <= #[trigger] targets_event_total(targets.take(i)) + #[trigger] event_total(
            targets[i].buckets.take(k),
        ) <= i64::MAX
}

fn append_target(text: &mut String, target: &PruneTarget, sizes: &TargetSizes, events: i64) -> (total:
    i64)
    requires
        forall|k: int|
            0 <= k <= target@.buckets.len() ==> i64::MIN <= events + #[trigger] event_total(
                target@.buckets.take(k),
            ) <= i64::MAX,
    ensures
        final(text)@ == old(text)@ + target_lines(
            target@,
            sizes.db_size@,
            sizes.reclaimable@,
        ),
        total == events + event_total(target@.buckets),
{
    let ghost start = text@;
    text.append("  ");
    text.append(target.db_path.as_str());
    text.append(" (own staging, ");
    text.append(sizes.db_size.as_str());
    text.append(")\n");
    let ghost head = "  "@ + target@.db_path + " (own staging, "@ + sizes.db_size@ + ")\n"@;
    let ghost all = target@.buckets;
    let mut total: i64 = events;
    let mut i: usize = 0;
    proof {
        assert(text@ =~= start + head);
        assert(all.take(0) =~= Seq::empty());
        assert(text@ =~= start + (head + bucket_lines(all.take(0))));
    }
    while i < target.buckets.len()
        invariant
            all == target@.buckets,
            all == counted_views(target.buckets@),
            i <= target.buckets.len(),
            forall|k: int|
                0 <= k <= all.len() ==> i64::MIN <= events + #[trigger] event_total(all.take(k))
                    <= i64::MAX,
            total == events + event_total(all.take(i as int)),
            text@ == start + (head + bucket_lines(all.take(i as int))),
        decreases target.buckets.len() - i,
    {
        let ghost so_far = text@;
        let (id, count) = &target.buckets[i];
        text.append("    ");
        text.append(id.as_str());
        text.append("  ");
        let number = signed_decimal_text(*count as i128);
        text.append(number.as_str());
        text.append(" events\n");
        proof {
            assert(all[i as int] == (id@, *count));
            assert(all.take(i + 1).drop_last() =~= all.take(i as int));
            assert(all.take(i + 1).last() == all[i as int]);
            assert(i64::MIN <= events + event_total(all.take(i + 1)) <= i64::MAX);
            assert(text@ =~= start + (head + bucket_lines(all.take(i + 1))));
        }
        total = total + *count;
        i += 1;
    }
    proof {
        assert(all.take(i as int) =~= all);
    }
    if target.buckets.len() == 0 {
        text.append("    no re-exported buckets left, but ");
        text.append(sizes.reclaimable.as_str());
        text.append(" is reclaimable by VACUUM (an earlier run did not finish)\n");
    }
    proof {
        assert(text@ =~= start + target_lines(target@, sizes.db_size@, sizes.reclaimable@));
    }
    total
}

/// What a cleanup says below its heading before it changes anything, and how it ends if there is
/// nothing to change or it is a dry run. A database that was skipped may still hold buckets from another
/// device, so that the run is incomplete however the rest goes.
pub fn clean_legacy(
    targets: &Vec<PruneTarget>,
    sizes: &Vec<TargetSizes>,
    skipped: &Vec<String>,
    dry_run: bool,
) -> (report: CleanReport)
    requires
        sizes@.len() == targets@.len(),
        event_sums_fit(target_views(targets@)),
        bucket_total(target_views(targets@)) <= usize::MAX,
    ensures
        report.text@ == opening_report(
            target_views(targets@),
            sizes@,
            texts(skipped@),
            dry_run,
        ),
        match report.end {
            Some(end) => (targets@.len() == 0 || dry_run) && end_view(end) == end_without_failures(
                skipped@.len(),
            ),
            None => targets@.len() > 0 && !dry_run,
        },
{
    let ghost all = target_views(targets@);
    let ghost all_skipped = texts(skipped@);
    let mut text = String::new();
    let mut i: usize = 0;
    proof {
        assert(all_skipped.take(0) =~= Seq::empty());
        assert(text@ =~= skipped_lines(all_skipped.take(0)));
    }
    while i < skipped.len()
        invariant
            all_skipped == texts(skipped@),
            i <= skipped.len(),
            text@ == skipped_lines(all_skipped.take(i as int)),
        decreases skipped.len() - i,
    {
        text.append("  ! skipped: ");
        text.append(skipped[i].as_str());
        text.append("\n");
        proof {
            assert(all_skipped.take(i + 1).drop_last() =~= all_skipped.take(i as int));
            assert(all_skipped.take(i + 1).last() == skipped@[i as int]@);
            assert(text@ =~= skipped_lines(all_skipped.take(i + 1)));
        }
        i += 1;
    }
    proof {
        assert(all_skipped.take(i as int) =~= all_skipped);
    }
    if targets.len() == 0 {
        text.append("  no other own staging db holds re-exported …-synced-from-… buckets\n");
        return CleanReport { text, end: Some(end_of(skipped.len())) };
    }
    let ghost start = text@;
    let mut total_buckets: usize = 0;
    let mut total_events: i64 = 0;
    let mut j: usize = 0;
    proof {
        assert(all.take(0) =~= Seq::empty());
        assert(start + targets_lines(all.take(0), sizes@) =~= start);
    }
    while j < targets.len()
        invariant
            all == target_views(targets@),
            sizes@.len() == targets@.len(),
            j <= targets.len(),
            event_sums_fit(all),
            bucket_total(all) <= usize::MAX,
            text@ == start + targets_lines(all.take(j as int), sizes@),
            total_buckets == bucket_total(all.take(j as int)),
            total_events == targets_event_total(all.take(j as int)),
        decreases targets.len() - j,
    {
        let ghost so_far = text@;
        proof {
            assert(all[j as int] == targets@[j as int]@);
            assert(all.take(j + 1).drop_last() =~= all.take(j as int));
            assert(all.take(j + 1).last() == all[j as int]);
            assert forall|k: int| 0 <= k <= all[j as int].buckets.len() implies i64::MIN
                <= total_events + #[trigger] event_total(all[j as int].buckets.take(k))
                <= i64::MAX by {
                assert(targets_event_total(all.take(j as int)) + event_total(
                    all[j as int].buckets.take(k),
                ) <= i64::MAX);
            }
            lemma_bucket_total_prefix(all, j + 1);
        }
        total_events = append_target(&mut text, &targets[j], &sizes[j], total_events);
        total_buckets = total_buckets + targets[j].buckets.len();
        proof {
            assert(text@ =~= start + targets_lines(all.take(j + 1), sizes@));
        }
        j += 1;
    }
    proof {
        assert(all.take(j as int) =~= all);
    }
    text.append("  ");
    let buckets = decimal_text(total_buckets as u128);
    text.append(buckets.as_str());
    text.append(" re-exported buckets, ");
    let events = signed_decimal_text(total_events as i128);
    text.append(events.as_str());
    text.append(" events in ");
    let count = decimal_text(targets.len() as u128);
    text.append(count.as_str());
    text.append(" db(s).\n");
    proof {
        assert(text@ =~= start + (targets_lines(all, sizes@) + summary_line(all)));
    }
    if dry_run {
        text.append(
            "  dry run: nothing changed. Re-run without --dry-run to delete them. The deletion replicates to every device sharing this folder; those devices already ignore these buckets on pull.\n",
        );
        proof {
            assert(text@ =~= opening_report(all, sizes@, all_skipped, dry_run));
        }
        CleanReport { text, end: Some(end_of(skipped.len())) }
    } else {
        proof {
            assert(text@ =~= opening_report(all, sizes@, all_skipped, dry_run));
        }
        CleanReport { text, end: None }
    }
}

proof fn lemma_bucket_total_prefix(targets: Seq<PruneTargetView>, k: int)
    requires
        0 <= k <= targets.len(),
    ensures
        bucket_total(targets.take(k)) <= bucket_total(targets),
    decreases targets.len(),
{
    if k < targets.len() {
        lemma_bucket_total_prefix(targets.drop_last(), k);
        assert(targets.drop_last().take(k) =~= targets.take(k));
    } else {
        assert(targets.take(k) =~= targets);
    }
}

/// What pruning one database came to, and how its sizes before and after are written.
#[derive(Debug)]
pub enum PruneReport {
    Pruned { outcome: PruneOutcome, size_before: String, size_after: String },
    Failed { reason: String },
}

/// The line on what pruning a database came to.
pub open spec fn prune_line(db_path: Seq<char>, report: PruneReport) -> Seq<char> {
    match report {
        PruneReport::Pruned { outcome, size_before, size_after } => "  pruned "@ + decimal(
            outcome.buckets as nat,
        ) + " buckets ("@ + decimal(outcome.events as nat) + " events) from "@ + db_path + ": "@
            + size_before@ + " → "@ + size_after@ + "\n"@,
        PruneReport::Failed { reason } => "  ! "@ + reason@ + "\n"@,
    }
}

/// How many of the databases could not be pruned.
pub open spec fn failures(reports: Seq<PruneReport>) -> nat
    decreases reports.len(),
{
    if reports.len() == 0 {
        0
    } else {
        failures(reports.drop_last()) + if reports.last() is Failed {
            1nat
        } else {
            0nat
        }
    }
}

/// How a cleanup ends.
pub open spec fn clean_end(failed: nat, skipped: nat) -> Result<(), Seq<char>> {
    if failed > 0 {
        Err(
            decimal(failed) + " staging db(s) could not be pruned, "@ + decimal(skipped)
                + " skipped"@,
        )
    } else {
        end_without_failures(skipped)
    }
}

/// What a cleanup says of what pruning a target came to.
pub fn report_pruning(target: &PruneTarget, report: &PruneReport) -> (line: String)
    ensures
        line@ == prune_line(target@.db_path, *report),
{
    match report {
        PruneReport::Pruned { outcome, size_before, size_after } => {
            let buckets = decimal_text(outcome.buckets as u128);
            let mut text = join("  pruned ", buckets.as_str());
            text.append(" buckets (");
            let events = decimal_text(outcome.events as u128);
            text.append(events.as_str());
            text.append(" events) from ");
            text.append(target.db_path.as_str());
            text.append(": ");
            text.append(size_before.as_str());
            text.append(" → ");
            text.append(size_after.as_str());
            text.append("\n");
            text
        },
        PruneReport::Failed { reason } => {
            let mut text = join("  ! ", reason.as_str());
            text.append("\n");
            text
        },
    }
}

/// How a cleanup ends, by what pruning each target came to and how many databases were skipped.
pub fn finish_clean_legacy(reports: &Vec<PruneReport>, skipped: usize) -> (end: Result<(), String>)
    ensures
        end_view(end) == clean_end(failures(reports@), skipped as nat),
{
    let mut failed: usize = 0;
    let mut i: usize = 0;
    proof {
        assert(reports@.take(0) =~= Seq::empty());
    }
    while i < reports.len()
        invariant
            i <= reports.len(),
            failed == failures(reports@.take(i as int)),
            failed <= i,
        decreases reports.len() - i,
    {
        proof {
            assert(reports@.take(i + 1).drop_last() =~= reports@.take(i as int));
            assert(reports@.take(i + 1).last() == reports@[i as int]);
        }
        match &reports[i] {
            PruneReport::Pruned { .. } => {},
            PruneReport::Failed { .. } => {
                failed = failed + 1;
            },
        }
        i += 1;
    }
    proof {
        assert(reports@.take(i as int) =~= reports@);
    }
    if failed > 0 {
        let number = decimal_text(failed as u128);
        let mut reason = join(number.as_str(), " staging db(s) could not be pruned, ");
        let others = decimal_text(skipped as u128);
        reason.append(others.as_str());
        reason.append(" skipped");
        Err(reason)
    } else {
        end_of(skipped)
    }
}

/// A cleanup succeeds only if every staging database of this device was looked into and every
/// target could be pruned.
pub proof fn law_success_means_complete(reports: Seq<PruneReport>, skipped: nat)
    ensures
        clean_end(failures(reports), skipped) is Ok <==> skipped == 0 && forall|i: int|
            0 <= i < reports.len() ==> (#[trigger] reports[i]) is Pruned,
    decreases reports.len(),
{
    if reports.len() > 0 {
        let head = reports.drop_last();
        law_success_means_complete(head, 0);
        assert forall|i: int| 0 <= i < head.len() implies #[trigger] head[i] == reports[i] by {}
        assert(reports[reports.len() - 1] == reports.last());
        if failures(reports) == 0 {
            assert forall|i: int| 0 <= i < reports.len() implies (#[trigger] reports[i]) is Pruned by {
                if i < head.len() {
                    assert(head[i] is Pruned);
                }
            }
        } else if failures(head) > 0 {
            let i = choose|i: int| 0 <= i < head.len() && !((#[trigger] head[i]) is Pruned);
            assert(!(reports[i] is Pruned));
        }
    }
}

/// The names of buckets.
pub open spec fn names_of(buckets: Seq<(Seq<char>, i64)>) -> Seq<Seq<char>> {
    buckets.map_values(|b: (Seq<char>, i64)| b.0)
}

/// The buckets that are left when those of these names are deleted.
pub open spec fn without(buckets: Seq<(Seq<char>, i64)>, names: Seq<Seq<char>>) -> Seq<
    (Seq<char>, i64),
> {
    buckets.filter(|b: (Seq<char>, i64)| !names.contains(b.0))
}

/// The buckets that did not come from another device.
pub open spec fn first_hand(buckets: Seq<(Seq<char>, i64)>) -> Seq<(Seq<char>, i64)> {
    buckets.filter(|b: (Seq<char>, i64)| !synced(b.0))
}

/// How many free pages are left once the buckets are deleted: `VACUUM` gives back all of them.
pub open spec fn free_after(free_pages: i64) -> i64 {
    if free_pages > 0 {
        0
    } else {
        free_pages
    }
}

/// Whether this is what pruning a target leaves of an entry: the database without the buckets
/// of the target, and with as many free pages as are left then.
pub open spec fn pruned_entry(before: SyncEntry, target: PruneTargetView, after: SyncEntry) -> bool {
    &&& after.own_staging == before.own_staging
    &&& after.db_path == before.db_path
    &&& after.inspected matches Ok(found) && {
        &&& counted_views(found.buckets@) == without(
            counted_views(before.inspected->Ok_0.buckets@),
            names_of(target.buckets),
        )
        &&& exists|free: i64, page: i64|
            found.reclaimable as int == #[trigger] free_bytes(free_after(free), page)
    }
}

/// Whether this is what a cleanup leaves of the entries, given what pruning each target came to:
/// targets that could be pruned are, and what is no target stays as it is.
pub open spec fn cleaned(
    before: Seq<SyncEntry>,
    after: Seq<SyncEntry>,
    reports: Seq<PruneReport>,
) -> bool
    decreases before.len(),
{
    if before.len() == 0 {
        after.len() == 0 && reports.len() == 0
    } else {
        &&& after.len() == before.len()
        &&& match entry_target(before.last()) {
            None => {
                &&& after.last() == before.last()
                &&& cleaned(before.drop_last(), after.drop_last(), reports)
            },
            Some(target) => {
                &&& reports.len() > 0
                &&& reports.last() is Pruned ==> pruned_entry(before.last(), target, after.last())
                &&& cleaned(before.drop_last(), after.drop_last(), reports.drop_last())
            },
        }
    }
}

proof fn lemma_first_hand_is_not_synced(buckets: Seq<(Seq<char>, i64)>)
    requires
        forall|i: int| 0 <= i < buckets.len() ==> !synced((#[trigger] buckets[i]).0),
    ensures
        synced_buckets(buckets) == Seq::<(Seq<char>, i64)>::empty(),
    decreases buckets.len(),
{
    if buckets.len() > 0 {
        let head = buckets.drop_last();
        assert forall|i: int| 0 <= i < head.len() implies !synced((#[trigger] head[i]).0) by {
            assert(head[i] == buckets[i]);
        }
        lemma_first_hand_is_not_synced(head);
        assert(!synced(buckets[buckets.len() - 1].0));
    }
}

proof fn lemma_synced_is_listed(buckets: Seq<(Seq<char>, i64)>, i: int)
    requires
        0 <= i < buckets.len(),
        synced(buckets[i].0),
    ensures
        names_of(synced_buckets(buckets)).contains(buckets[i].0),
    decreases buckets.len(),
{
    let listed = synced_buckets(buckets);
    let earlier = synced_buckets(buckets.drop_last());
    if i == buckets.len() - 1 {
        assert(names_of(listed)[listed.len() - 1] == buckets[i].0);
    } else {
        assert(buckets.drop_last()[i] == buckets[i]);
        lemma_synced_is_listed(buckets.drop_last(), i);
        let k = choose|k: int|
            0 <= k < names_of(earlier).len() && names_of(earlier)[k] == buckets[i].0;
        assert(names_of(listed)[k] == names_of(earlier)[k]);
    }
}

/// A database whose buckets are all this device's own, and of which `VACUUM` would give back
/// nothing, is no target.
pub proof fn law_clean_database_is_no_target(
    db_path: Seq<char>,
    db_size: Option<u64>,
    buckets: Seq<(Seq<char>, i64)>,
)
    requires
        forall|i: int| 0 <= i < buckets.len() ==> !synced((#[trigger] buckets[i]).0),
    ensures
        target_of(db_path, db_size, buckets, 0) is None,
{
    lemma_first_hand_is_not_synced(buckets);
}

/// Pruning a target may delete every bucket it names, and leaves just the buckets that did not
/// come from another device, as they were.
pub proof fn law_pruning_leaves_first_hand_buckets(buckets: Seq<(Seq<char>, i64)>)
    ensures
        all_synced(names_of(synced_buckets(buckets))),
        without(buckets, names_of(synced_buckets(buckets))) == first_hand(buckets),
        forall|i: int|
            0 <= i < first_hand(buckets).len() ==> !synced((#[trigger] first_hand(buckets)[i]).0),
{
    let names = names_of(synced_buckets(buckets));
    lemma_synced_buckets(buckets);
    assert forall|i: int| 0 <= i < names.len() implies synced(#[trigger] names[i]) by {
        assert(names[i] == synced_buckets(buckets)[i].0);
    }
    let unnamed = |b: (Seq<char>, i64)| !names.contains(b.0);
    let own = |b: (Seq<char>, i64)| !synced(b.0);
    assert forall|i: int| 0 <= i < buckets.len() implies unnamed(#[trigger] buckets[i]) == own(
        buckets[i],
    ) by {
        if synced(buckets[i].0) {
            lemma_synced_is_listed(buckets, i);
        }
    }
    lemma_same_filter(buckets, unnamed, own);
    assert forall|i: int| 0 <= i < first_hand(buckets).len() implies !synced(
        (#[trigger] first_hand(buckets)[i]).0,
    ) by {
        buckets.lemma_filter_pred(own, i);
        assert(own(buckets.filter(own)[i]));
    }
}

proof fn lemma_same_filter(
    buckets: Seq<(Seq<char>, i64)>,
    f: spec_fn((Seq<char>, i64)) -> bool,
    g: spec_fn((Seq<char>, i64)) -> bool,
)
    requires
        forall|i: int| 0 <= i < buckets.len() ==> f(#[trigger] buckets[i]) == g(buckets[i]),
    ensures
        buckets.filter(f) == buckets.filter(g),
    decreases buckets.len(),
{
    reveal(Seq::filter);
    if buckets.len() > 0 {
        let head = buckets.drop_last();
        assert forall|i: int| 0 <= i < head.len() implies f(#[trigger] head[i]) == g(head[i]) by {
            assert(head[i] == buckets[i]);
        }
        lemma_same_filter(head, f, g);
        assert(f(buckets[buckets.len() - 1]) == g(buckets[buckets.len() - 1]));
    }
}

/// A cleanup that has succeeded leaves nothing to prune: if nothing else changes the databases,
/// a second run finds no target and skips nothing.
pub proof fn law_finished_cleanup_leaves_no_target(
    before: Seq<SyncEntry>,
    after: Seq<SyncEntry>,
    reports: Seq<PruneReport>,
)
    requires
        cleaned(before, after, reports),
        clean_end(failures(reports), skipped_of(before).len()) is Ok,
    ensures
        targets_of(after) == Seq::<PruneTargetView>::empty(),
        skipped_of(after) == Seq::<Seq<char>>::empty(),
    decreases before.len(),
{
    if before.len() > 0 {
        let entry = before.last();
        let left = after.last();
        match entry_target(entry) {
            None => {
                law_finished_cleanup_leaves_no_target(
                    before.drop_last(),
                    after.drop_last(),
                    reports,
                );
            },
            Some(target) => {
                law_finished_cleanup_leaves_no_target(
                    before.drop_last(),
                    after.drop_last(),
                    reports.drop_last(),
                );
                let buckets = counted_views(entry.inspected->Ok_0.buckets@);
                let found = left.inspected->Ok_0;
                law_pruning_leaves_first_hand_buckets(buckets);
                law_clean_database_is_no_target(
                    left.db_path->Some_0@,
                    left.db_size,
                    counted_views(found.buckets@),
                );
                assert(found.reclaimable == 0) by {
                    let (free, page) = choose|free: i64, page: i64|
                        found.reclaimable as int == #[trigger] free_bytes(free_after(free), page);
                    assert(free_bytes(free_after(free), page) == 0);
                }
            },
        }
    }
}

/// A database is a target if and only if it holds a bucket that came from another device, or a tenth
/// of it or more would be given back by `VACUUM`. What is deleted of it are all such buckets, with
/// the numbers of their events.
pub proof fn law_target_is_worth_its_while(
    db_path: Seq<char>,
    db_size: u64,
    buckets: Seq<(Seq<char>, i64)>,
    reclaimable: u64,
)
    ensures
        target_of(db_path, Some(db_size), buckets, reclaimable) is Some <==> (exists|i: int|
            0 <= i < buckets.len() && synced((#[trigger] buckets[i]).0)) || (reclaimable > 0
            && reclaimable * 10 >= db_size),
        target_of(db_path, Some(db_size), buckets, reclaimable) matches Some(target) ==> {
            &&& target.db_path == db_path
            &&& target.db_size == db_size
            &&& target.reclaimable == reclaimable
            &&& forall|b: (Seq<char>, i64)| #[trigger]
                target.buckets.contains(b) <==> buckets.contains(b) && synced(b.0)
        },
{
    lemma_synced_are_kept(buckets);
    let found = synced_buckets(buckets);
    if found.len() > 0 {
        assert(found.contains(found[0]));
        let i = choose|i: int| 0 <= i < buckets.len() && buckets[i] == found[0];
        assert(synced(buckets[i].0));
    }
    if exists|i: int| 0 <= i < buckets.len() && synced((#[trigger] buckets[i]).0) {
        let i = choose|i: int| 0 <= i < buckets.len() && synced((#[trigger] buckets[i]).0);
        assert(buckets.contains(buckets[i]));
        assert(found.contains(buckets[i]));
    }
}

proof fn lemma_synced_are_kept(buckets: Seq<(Seq<char>, i64)>)
    ensures
        forall|b: (Seq<char>, i64)| #[trigger]
            synced_buckets(buckets).contains(b) <==> buckets.contains(b) && synced(b.0),
    decreases buckets.len(),
{
    let all = synced_buckets(buckets);
    if buckets.len() > 0 {
        let head = buckets.drop_last();
        let before = synced_buckets(head);
        lemma_synced_are_kept(head);
        assert forall|b: (Seq<char>, i64)| #[trigger] all.contains(b) <==> buckets.contains(b)
            && synced(b.0) by {
            if all.contains(b) {
                let k = choose|k: int| 0 <= k < all.len() && all[k] == b;
                if k < before.len() {
                    assert(before[k] == b);
                    assert(before.contains(b));
                    let i = choose|i: int| 0 <= i < head.len() && head[i] == b;
                    assert(buckets[i] == b);
                } else {
                    assert(buckets[buckets.len() - 1] == b);
                }
            }
            if buckets.contains(b) && synced(b.0) {
                let i = choose|i: int| 0 <= i < buckets.len() && buckets[i] == b;
                if i < head.len() {
                    assert(head[i] == b);
                    assert(before.contains(b));
                    let k = choose|k: int| 0 <= k < before.len() && before[k] == b;
                    assert(all[k] == b);
                } else {
                    assert(all[all.len() - 1] == b);
                }
            }
        }
    }
}

/// The numbers of a report add up: those of some targets and of others are those of all.
pub proof fn law_reported_numbers_add_up(a: Seq<PruneTargetView>, b: Seq<PruneTargetView>)
    ensures
        bucket_total(a + b) == bucket_total(a) + bucket_total(b),
        targets_event_total(a + b) == targets_event_total(a) + targets_event_total(b),
        a.len() == 1 ==> bucket_total(a) == a[0].buckets.len() && targets_event_total(a)
            == event_total(a[0].buckets),
    decreases b.len(),
{
    if b.len() == 0 {
        assert(a + b =~= a);
    } else {
        law_reported_numbers_add_up(a, b.drop_last());
        assert((a + b).drop_last() =~= a + b.drop_last());
        assert((a + b).last() == b.last());
    }
    if a.len() == 1 {
        assert(a.drop_last() =~= Seq::<PruneTargetView>::empty());
        reveal_with_fuel(bucket_total, 2);
        reveal_with_fuel(targets_event_total, 2);
    }
}

/// The events of buckets are those of each of them.
pub proof fn law_event_total_adds_up(
    a: Seq<(Seq<char>, i64)>,
    b: Seq<(Seq<char>, i64)>,
    bucket: (Seq<char>, i64),
)
    ensures
        event_total(a + b) == event_total(a) + event_total(b),
        event_total(seq![bucket]) == bucket.1,
    decreases b.len(),
{
    if b.len() == 0 {
        assert(a + b =~= a);
    } else {
        law_event_total_adds_up(a, b.drop_last(), bucket);
        assert((a + b).drop_last() =~= a + b.drop_last());
        assert((a + b).last() == b.last());
    }
    assert(seq![bucket].drop_last() =~= Seq::<(Seq<char>, i64)>::empty());
    reveal_with_fuel(event_total, 2);
}

/// So many free pages of a size are as many bytes as their product, unless that is more than can be
/// counted, and there are none if one of the numbers is not positive.
pub proof fn law_free_pages_are_their_bytes(free: i64, page: i64)
    ensures
        free > 0 && page > 0 && free * page <= u64::MAX ==> free_bytes(free, page) == free * page,
        free > 0 && page > 0 && free * page > u64::MAX ==> free_bytes(free, page) == u64::MAX,
        free <= 0 || page <= 0 ==> free_bytes(free, page) == 0,
{
    if free <= 0 {
        assert(0 * (if page > 0 {
            page as int
        } else {
            0
        }) == 0) by (nonlinear_arith);
    } else if page <= 0 {
        assert((free as int) * 0 == 0) by (nonlinear_arith);
    }
}

/// Every entry that is a target is found, and every own staging database that could not be looked
/// into is reported; nothing else is.
pub proof fn law_every_entry_is_accounted_for(entries: Seq<SyncEntry>)
    ensures
        forall|target: PruneTargetView| #[trigger]
            targets_of(entries).contains(target) <==> exists|i: int|
                0 <= i < entries.len() && entry_target(#[trigger] entries[i]) == Some(target),
        forall|reason: Seq<char>| #[trigger]
            skipped_of(entries).contains(reason) <==> exists|i: int|
                0 <= i < entries.len() && is_skipped(#[trigger] entries[i], reason),
    decreases entries.len(),
{
    if entries.len() > 0 {
        let head = entries.drop_last();
        let n = entries.len() - 1;
        let targets = targets_of(entries);
        let skipped = skipped_of(entries);
        law_every_entry_is_accounted_for(head);
        assert forall|i: int| 0 <= i < head.len() implies #[trigger] head[i] == entries[i] by {}
        assert(entries[n] == entries.last());
        assert forall|target: PruneTargetView| #[trigger] targets.contains(target) <==> exists|i: int|
            0 <= i < entries.len() && entry_target(#[trigger] entries[i]) == Some(target) by {
            let before = targets_of(head);
            if targets.contains(target) {
                let k = choose|k: int| 0 <= k < targets.len() && targets[k] == target;
                if k < before.len() {
                    assert(before[k] == target);
                    assert(before.contains(target));
                    let i = choose|i: int|
                        0 <= i < head.len() && entry_target(#[trigger] head[i]) == Some(target);
                    assert(entry_target(entries[i]) == Some(target));
                } else {
                    assert(entry_target(entries[n]) == Some(target));
                }
            }
            if exists|i: int|
                0 <= i < entries.len() && entry_target(#[trigger] entries[i]) == Some(target) {
                let i = choose|i: int|
                    0 <= i < entries.len() && entry_target(#[trigger] entries[i]) == Some(target);
                if i < n {
                    assert(entry_target(head[i]) == Some(target));
                    assert(before.contains(target));
                    let k = choose|k: int| 0 <= k < before.len() && before[k] == target;
                    assert(targets[k] == target);
                } else {
                    assert(targets[targets.len() - 1] == target);
                }
            }
        }
        assert forall|reason: Seq<char>| #[trigger] skipped.contains(reason) <==> exists|i: int|
            0 <= i < entries.len() && is_skipped(#[trigger] entries[i], reason) by {
            let before = skipped_of(head);
            if skipped.contains(reason) {
                let k = choose|k: int| 0 <= k < skipped.len() && skipped[k] == reason;
                if k < before.len() {
                    assert(before[k] == reason);
                    assert(before.contains(reason));
                    let i = choose|i: int| 0 <= i < head.len() && is_skipped(#[trigger] head[i], reason);
                    assert(is_skipped(entries[i], reason));
                } else {
                    assert(is_skipped(entries[n], reason));
                }
            }
            if exists|i: int| 0 <= i < entries.len() && is_skipped(#[trigger] entries[i], reason) {
                let i = choose|i: int|
                    0 <= i < entries.len() && is_skipped(#[trigger] entries[i], reason);
                if i < n {
                    assert(is_skipped(head[i], reason));
                    assert(before.contains(reason));
                    let k = choose|k: int| 0 <= k < before.len() && before[k] == reason;
                    assert(skipped[k] == reason);
                } else {
                    assert(skipped[skipped.len() - 1] == reason);
                }
            }
        }
    }
}

/// Whether an entry is a staging database of this device that could not be looked into for this
/// reason.
pub open spec fn is_skipped(entry: SyncEntry, reason: Seq<char>) -> bool {
    &&& entry.own_staging
    &&& entry.db_path is Some
    &&& entry.inspected is Err
    &&& entry.inspected->Err_0@ == reason
}

/// A database that was pruned is reported with both of its numbers and its name; one that was not,
/// with the reason.
pub proof fn law_pruning_is_reported_with_its_numbers(
    db_path: Seq<char>,
    report: PruneReport,
)
    ensures
        match report {
            PruneReport::Pruned { outcome, size_before, size_after } => {
                &&& ("  pruned "@ + decimal(outcome.buckets as nat) + " buckets ("@ + decimal(
                    outcome.events as nat,
                ) + " events) from "@ + db_path).is_prefix_of(prune_line(db_path, report))
                &&& (size_before@ + " → "@ + size_after@ + "\n"@).is_suffix_of(
                    prune_line(db_path, report),
                )
            },
            PruneReport::Failed { reason } => prune_line(db_path, report) == "  ! "@ + reason@
                + "\n"@,
        },
{
    if let PruneReport::Pruned { outcome, size_before, size_after } = report {
        let line = prune_line(db_path, report);
        let front = "  pruned "@ + decimal(outcome.buckets as nat) + " buckets ("@ + decimal(
            outcome.events as nat,
        ) + " events) from "@ + db_path;
        let back = size_before@ + " → "@ + size_after@ + "\n"@;
        assert(line =~= front + ": "@ + back);
        assert(front =~= line.subrange(0, front.len() as int));
        assert(back =~= line.subrange(line.len() - back.len(), line.len() as int));
    }
}

/// A target is listed with one line for each bucket, in their order, with its name and its number
/// of events.
pub proof fn law_each_target_bucket_has_its_line(buckets: Seq<(Seq<char>, i64)>)
    ensures
        bucket_lines(buckets) == fed_lines(
            Seq::new(
                buckets.len(),
                |i: int|
                    "    "@ + buckets[i].0 + "  "@ + signed_decimal(buckets[i].1 as int)
                        + " events"@,
            ),
        ),
    decreases buckets.len(),
{
    let all = Seq::new(
        buckets.len(),
        |i: int|
            "    "@ + buckets[i].0 + "  "@ + signed_decimal(buckets[i].1 as int) + " events"@,
    );
    if buckets.len() > 0 {
        let head = buckets.drop_last();
        let heads = Seq::new(
            head.len(),
            |i: int| "    "@ + head[i].0 + "  "@ + signed_decimal(head[i].1 as int) + " events"@,
        );
        let last = buckets.last();
        let front = "    "@ + last.0 + "  "@ + signed_decimal(last.1 as int);
        let line = front + " events"@;
        law_each_target_bucket_has_its_line(head);
        assert(all =~= heads.push(line));
        lemma_fed_lines_push(heads, line);
        reveal_strlit(" events");
        reveal_strlit(" events\n");
        assert(front + " events\n"@ =~= line.push('\n'));
    }
}

/// Each database that was skipped is reported, in order, with the reason.
pub proof fn law_each_skipped_database_has_its_line(skipped: Seq<Seq<char>>)
    ensures
        skipped_lines(skipped) == fed_lines(
            Seq::new(skipped.len(), |i: int| "  ! skipped: "@ + skipped[i]),
        ),
    decreases skipped.len(),
{
    let all = Seq::new(skipped.len(), |i: int| "  ! skipped: "@ + skipped[i]);
    if skipped.len() > 0 {
        let head = skipped.drop_last();
        let heads = Seq::new(head.len(), |i: int| "  ! skipped: "@ + head[i]);
        let line = "  ! skipped: "@ + skipped.last();
        law_each_skipped_database_has_its_line(head);
        assert(all =~= heads.push(line));
        lemma_fed_lines_push(heads, line);
        reveal_strlit("\n");
        assert(line + "\n"@ =~= line.push('\n'));
    }
}

} // verus!
