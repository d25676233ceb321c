//! Mark and sweep over the backup store: what an archival run moves.
use vstd::prelude::*;

use crate::archive::Liveness;
use crate::index::NameIndex;
use crate::manifest::views;

verus! {

/// A file of the backups directory as an archival run sees it.
#[derive(Debug)]
pub struct BackupFile {
    pub name: String,
    pub liveness: Liveness,
    /// The objects that the file references: for an active manifest, its walk;
    /// otherwise not read.
    pub references: Vec<String>,
}

/// What an archival run moves to the archive.
#[derive(Debug)]
pub struct ArchivePlan {
    /// Files of the backups directory, in listing order.
    pub backups: Vec<String>,
    /// Content objects, in listing order.
    pub objects: Vec<String>,
}

/// An active backup references an object that the repository lacks.
#[derive(Debug, Clone, PartialEq, Eq)]
pub struct MissingObject {
    pub object: String,
    pub backup: String,
}

pub open spec fn references_of(b: BackupFile) -> Seq<Seq<char>> {
    views(b.references@)
}

/// Some active backup of `bs` references `x`.
pub open spec fn is_live_ref(bs: Seq<BackupFile>, x: Seq<char>) -> bool {
    exists|i: int|
        0 <= i < bs.len() && bs[i].liveness == Liveness::Active && #[trigger] references_of(
            bs[i],
        ).contains(x)
}

/// Every object that an active backup references is in the repository.
pub open spec fn consistent(bs: Seq<BackupFile>, objects: Seq<Seq<char>>) -> bool {
    forall|x: Seq<char>| is_live_ref(bs, x) ==> objects.contains(x)
}

/// The names of the inactive backups, in order.
pub open spec fn inactive_names(bs: Seq<BackupFile>) -> Seq<Seq<char>>
    decreases bs.len(),
{
    if bs.len() == 0 {
        Seq::empty()
    } else if bs.last().liveness == Liveness::Inactive {
        inactive_names(bs.drop_last()).push(bs.last().name@)
    } else {
        inactive_names(bs.drop_last())
    }
}

/// The objects that no active backup references, in order.
pub open spec fn unreferenced(objects: Seq<Seq<char>>, bs: Seq<BackupFile>) -> Seq<Seq<char>>
    decreases objects.len(),
{
    if objects.len() == 0 {
        Seq::empty()
    } else if is_live_ref(bs, objects.last()) {
        unreferenced(objects.drop_last(), bs)
    } else {
        unreferenced(objects.drop_last(), bs).push(objects.last())
    }
}

/// `x` is among the references read so far: those of the active backups before
/// `i`, and the first `j` of backup `i` where it is active.
pub open spec fn marked(bs: Seq<BackupFile>, i: int, j: int, x: Seq<char>) -> bool {
    is_live_ref(bs.take(i), x) || (bs[i].liveness == Liveness::Active
        && references_of(bs[i]).take(j).contains(x))
}

proof fn lemma_marked_step(bs: Seq<BackupFile>, i: int, j: int, x: Seq<char>)
    requires
        0 <= i < bs.len(),
        0 <= j < bs[i].references@.len(),
        bs[i].liveness == Liveness::Active,
    ensures
        marked(bs, i, j + 1, x) <==> (marked(bs, i, j, x) || x == references_of(bs[i])[j]),
{
    let rs = references_of(bs[i]);
    let a = rs.take(j);
    let c = rs.take(j + 1);
    assert(c =~= a.push(rs[j]));
    if a.contains(x) {
        let k = choose|k: int| 0 <= k < a.len() && a[k] == x;
        assert(c[k] == x);
    }
    if x == rs[j] {
        assert(c[j] == x);
    }
    if c.contains(x) {
        let k = choose|k: int| 0 <= k < c.len() && c[k] == x;
        if k < j {
            assert(a[k] == x);
        }
    }
}

proof fn lemma_marked_next(bs: Seq<BackupFile>, i: int, x: Seq<char>)
    requires
        0 <= i < bs.len(),
    ensures
        (if bs[i].liveness == Liveness::Active {
            marked(bs, i, bs[i].references@.len() as int, x)
        } else {
            marked(bs, i, 0, x)
        }) <==> is_live_ref(bs.take(i + 1), x),
{
    let rs = references_of(bs[i]);
    assert(rs.take(bs[i].references@.len() as int) =~= rs);
    assert(rs.take(0).len() == 0);
    let t = bs.take(i);
    let t1 = bs.take(i + 1);
    if is_live_ref(t, x) {
        let k = choose|k: int|
            0 <= k < t.len() && t[k].liveness == Liveness::Active && #[trigger] references_of(
                t[k],
            ).contains(x);
        assert(t1[k] == t[k]);
    }
    if is_live_ref(t1, x) {
        let k = choose|k: int|
            0 <= k < t1.len() && t1[k].liveness == Liveness::Active && #[trigger] references_of(
                t1[k],
            ).contains(x);
        if k < i {
            assert(t[k] == t1[k]);
        } else {
            assert(t1[k] == bs[i]);
        }
    }
    if bs[i].liveness == Liveness::Active && rs.contains(x) {
        assert(t1[i] == bs[i]);
    }
}

/// Marks every object that an active backup references and sweeps the rest:
/// the plan moves each inactive backup and each unreferenced object, and
/// nothing else. Fails, moving nothing, where an active backup references an
/// object that `objects` lacks.
pub fn plan_archive(backups: &Vec<BackupFile>, objects: &Vec<String>) -> (r: Result<ArchivePlan, MissingObject>)
    ensures
        r is Ok <==> consistent(backups@, views(objects@)),
        r matches Err(e) ==> !views(objects@).contains(e.object@) && exists|i: int|
            0 <= i < backups@.len() && backups@[i].liveness == Liveness::Active
                && backups@[i].name@ == e.backup@ && #[trigger] references_of(backups@[i]).contains(
                e.object@,
            ),
        r matches Ok(p) ==> views(p.backups@) == inactive_names(backups@) && views(p.objects@)
            == unreferenced(views(objects@), backups@),
{
    let ghost bs = backups@;
    let ghost os = views(objects@);
    let mut present = NameIndex::new();
    let mut k: usize = 0;
    while k < objects.len()
        invariant
            present.wf(),
            k <= objects@.len(),
            present@ == views(objects@.take(k as int)),
        decreases objects@.len() - k,
    {
        present.push(objects[k].clone());
        k = k + 1;
        assert(present@ =~= views(objects@.take(k as int)));
    }
    assert(objects@.take(k as int) =~= objects@);
    let mut live = NameIndex::new();
    let mut i: usize = 0;
    while i < backups.len()
        invariant
            present.wf(),
            live.wf(),
            present@ == os,
            os == views(objects@),
            bs == backups@,
            i <= bs.len(),
            forall|x: Seq<char>| #[trigger] live@.contains(x) <==> is_live_ref(bs.take(i as int), x),
            forall|x: Seq<char>| is_live_ref(bs.take(i as int), x) ==> os.contains(x),
        decreases bs.len() - i,
    {
        let b = &backups[i];
        if b.liveness == Liveness::Active {
            let mut j: usize = 0;
            while j < b.references.len()
                invariant
                    present.wf(),
                    live.wf(),
                    present@ == os,
                    os == views(objects@),
                    bs == backups@,
                    i < bs.len(),
                    b == &backups@[i as int],
                    b.liveness == Liveness::Active,
                    j <= b.references@.len(),
                    forall|x: Seq<char>| #[trigger] live@.contains(x) <==> marked(bs, i as int, j as int, x),
                    forall|x: Seq<char>| marked(bs, i as int, j as int, x) ==> os.contains(x),
                decreases b.references@.len() - j,
            {
                let x = &b.references[j];
                proof {
                    assert forall|y: Seq<char>| marked(bs, i as int, j + 1, y) <==> (marked(bs, i as int, j as int, y) || y == x@) by {
                        lemma_marked_step(bs, i as int, j as int, y);
                    }
                    assert(references_of(bs[i as int])[j as int] == x@);
                }
                if present.find(x).is_none() {
                    proof {
                        assert(references_of(bs[i as int]).contains(x@)) by {
                            assert(references_of(bs[i as int])[j as int] == x@);
                        }
                        assert(is_live_ref(bs, x@));
                    }
                    return Err(MissingObject { object: x.clone(), backup: b.name.clone() });
                }
                if live.find(x).is_none() {
                    let ghost l0 = live@;
                    live.push(x.clone());
                    proof {
                        assert forall|y: Seq<char>| #[trigger] live@.contains(y) <==> (l0.contains(y) || y == x@) by {
                            if live@.contains(y) {
                                let q = choose|q: int| 0 <= q < live@.len() && live@[q] == y;
                                if q < l0.len() {
                                    assert(l0[q] == y);
                                }
                            }
                            if l0.contains(y) {
                                let q = choose|q: int| 0 <= q < l0.len() && l0[q] == y;
                                assert(live@[q] == y);
                            }
                            if y == x@ {
                                assert(live@[l0.len() as int] == y);
                            }
                        }
                    }
                }
                j = j + 1;
            }
        }
        proof {
            assert forall|x: Seq<char>| #[trigger] live@.contains(x) <==> is_live_ref(bs.take(i + 1), x) by {
                lemma_marked_next(bs, i as int, x);
            }
            assert forall|x: Seq<char>| is_live_ref(bs.take(i + 1), x) implies os.contains(x) by {
                lemma_marked_next(bs, i as int, x);
            }
        }
        i = i + 1;
    }
    assert(bs.take(i as int) =~= bs);
    let mut moved_objects: Vec<String> = Vec::new();
    let mut k: usize = 0;
    while k < objects.len()
        invariant
            live.wf(),
            os == views(objects@),
            bs == backups@,
            k <= objects@.len(),
            forall|x: Seq<char>| #[trigger] live@.contains(x) <==> is_live_ref(bs, x),
            views(moved_objects@) == unreferenced(os.take(k as int), bs),
        decreases objects@.len() - k,
    {
        assert(os.take(k + 1).drop_last() =~= os.take(k as int));
        assert(os.take(k + 1).last() == objects@[k as int]@);
        let found = live.find(&objects[k]);
        proof {
            let x = objects@[k as int]@;
            if let Some(q) = found {
                assert(live@[q as int] == x);
                assert(live@.contains(x));
                assert(is_live_ref(bs, x));
            } else {
                assert(!is_live_ref(bs, x));
            }
            assert(unreferenced(os.take(k + 1), bs) == if is_live_ref(bs, x) {
                unreferenced(os.take(k as int), bs)
            } else {
                unreferenced(os.take(k as int), bs).push(x)
            });
        }
        if found.is_none() {
            let ghost m0 = moved_objects@;
            moved_objects.push(objects[k].clone());
            assert(views(moved_objects@) =~= views(m0).push(objects@[k as int]@));
        }
        k = k + 1;
    }
    assert(os.take(k as int) =~= os);
    let mut moved_backups: Vec<String> = Vec::new();
    let mut i: usize = 0;
    while i < backups.len()
        invariant
            bs == backups@,
            i <= bs.len(),
            views(moved_backups@) == inactive_names(bs.take(i as int)),
        decreases bs.len() - i,
    {
        assert(bs.take(i + 1).drop_last() =~= bs.take(i as int));
        if backups[i].liveness == Liveness::Inactive {
            let ghost m0 = moved_backups@;
            moved_backups.push(backups[i].name.clone());
            assert(views(moved_backups@) =~= views(m0).push(backups@[i as int].name@));
        }
        i = i + 1;
    }
    assert(bs.take(i as int) =~= bs);
    Ok(ArchivePlan { backups: moved_backups, objects: moved_objects })
}

/// No object that an active backup references is ever in the sweep: every
/// object that the sweep moves is one of the listed objects, and none of them
/// is referenced by an active backup.
pub proof fn lemma_live_objects_kept(objects: Seq<Seq<char>>, bs: Seq<BackupFile>, x: Seq<char>)
    ensures
        unreferenced(objects, bs).contains(x) <==> (objects.contains(x) && !is_live_ref(bs, x)),
    decreases objects.len(),
{
    if objects.len() > 0 {
        let init = objects.drop_last();
        let last = objects.last();
        lemma_live_objects_kept(init, bs, x);
        let u0 = unreferenced(init, bs);
        assert(objects =~= init.push(last));
        if init.contains(x) {
            let k = choose|k: int| 0 <= k < init.len() && init[k] == x;
            assert(objects[k] == x);
        }
        if objects.contains(x) {
            let k = choose|k: int| 0 <= k < objects.len() && objects[k] == x;
            if k < init.len() {
                assert(init[k] == x);
            }
        }
        if !is_live_ref(bs, last) {
            if u0.push(last).contains(x) {
                let k = choose|k: int| 0 <= k < u0.push(last).len() && u0.push(last)[k] == x;
                if k < u0.len() {
                    assert(u0[k] == x);
                }
            }
            if u0.contains(x) {
                let k = choose|k: int| 0 <= k < u0.len() && u0[k] == x;
                assert(u0.push(last)[k] == x);
            }
            if x == last {
                assert(u0.push(last)[u0.len() as int] == x);
            }
        }
    }
}

/// Which directory pair a sweep action moves between.
#[derive(Debug, Clone, Copy, PartialEq, Eq, Structural)]
pub enum Category {
    /// From the backups directory to the archived backups directory.
    Backup,
    /// From the object repository to the archived object repository.
    Object,
}

/// One step of a sweep: move the named file, or, in a dry run, only report it.
#[derive(Debug)]
pub struct SweepAction {
    pub name: String,
    pub category: Category,
    pub perform: bool,
}

/// The names and categories of the actions of a sweep over `plan`.
pub open spec fn action_targets(backups: Seq<Seq<char>>, objects: Seq<Seq<char>>) -> Seq<(Seq<char>, Category)> {
    backups.map_values(|n: Seq<char>| (n, Category::Backup)) + objects.map_values(
        |n: Seq<char>| (n, Category::Object),
    )
}

pub open spec fn targets_of(actions: Seq<SweepAction>) -> Seq<(Seq<char>, Category)> {
    actions.map_values(|a: SweepAction| (a.name@, a.category))
}

/// The steps of a sweep over `plan`: the backups, then the objects; each one a
/// move, or, in a dry run, a report of the move that a real run makes.
pub fn sweep_actions(plan: &ArchivePlan, dry_run: bool) -> (r: Vec<SweepAction>)
    ensures
        targets_of(r@) == action_targets(views(plan.backups@), views(plan.objects@)),
        forall|i: int| 0 <= i < r@.len() ==> #[trigger] r@[i].perform == !dry_run,
{
    let mut r: Vec<SweepAction> = Vec::new();
    let mut i: usize = 0;
    while i < plan.backups.len()
        invariant
            i <= plan.backups@.len(),
            targets_of(r@) == action_targets(views(plan.backups@.take(i as int)), Seq::empty()),
            forall|k: int| 0 <= k < r@.len() ==> #[trigger] r@[k].perform == !dry_run,
        decreases plan.backups@.len() - i,
    {
        let ghost r0 = r@;
        r.push(SweepAction { name: plan.backups[i].clone(), category: Category::Backup, perform: !dry_run });
        proof {
            let t = (plan.backups@[i as int]@, Category::Backup);
            assert(targets_of(r@) =~= targets_of(r0).push(t));
            assert(views(plan.backups@.take(i + 1)) =~= views(plan.backups@.take(i as int)).push(t.0));
        }
        i = i + 1;
        assert(targets_of(r@) =~= action_targets(views(plan.backups@.take(i as int)), Seq::empty()));
    }
    assert(plan.backups@.take(i as int) =~= plan.backups@);
    let mut j: usize = 0;
    while j < plan.objects.len()
        invariant
            j <= plan.objects@.len(),
            targets_of(r@) == action_targets(views(plan.backups@), views(plan.objects@.take(j as int))),
            forall|k: int| 0 <= k < r@.len() ==> #[trigger] r@[k].perform == !dry_run,
        decreases plan.objects@.len() - j,
    {
        let ghost r0 = r@;
        r.push(SweepAction { name: plan.objects[j].clone(), category: Category::Object, perform: !dry_run });
        proof {
            let t = (plan.objects@[j as int]@, Category::Object);
            assert(targets_of(r@) =~= targets_of(r0).push(t));
            assert(views(plan.objects@.take(j + 1)) =~= views(plan.objects@.take(j as int)).push(t.0));
        }
        j = j + 1;
        assert(targets_of(r@) =~= action_targets(views(plan.backups@), views(plan.objects@.take(j as int))));
    }
    assert(plan.objects@.take(j as int) =~= plan.objects@);
    r
}

/// A dry run announces exactly the moves of a real run: over the same plan both name the same
/// files in the same order, and only the real run performs the moves.
pub proof fn lemma_dry_run_matches_real_run(plan: ArchivePlan, dry: Seq<SweepAction>, moved: Seq<SweepAction>)
    requires
        targets_of(dry) == action_targets(views(plan.backups@), views(plan.objects@)),
        targets_of(moved) == action_targets(views(plan.backups@), views(plan.objects@)),
        forall|i: int| 0 <= i < dry.len() ==> !(#[trigger] dry[i].perform),
        forall|i: int| 0 <= i < moved.len() ==> (#[trigger] moved[i].perform),
    ensures
        targets_of(dry) == targets_of(moved),
        dry.len() == moved.len(),
{
    assert(targets_of(dry).len() == dry.len());
    assert(targets_of(moved).len() == moved.len());
}

} // verus!
