//! The quarantine relocator: plans one move per member of every
//! duplicate-sized group into the `duplicates` subdirectory, applies a plan
//! against a path-level model of the filesystem with rename semantics, and
//! summarises the outcomes. The move-safety and quarantine-cleanup laws
//! live here.

use vstd::prelude::*;

use crate::group::{Group, GroupView, group_views};
use crate::paths::{byte_views, bytes_eq, copy_bytes, file_name_of, file_name_spec};
use crate::records::RecordView;

verus! {

/// The quarantine subdirectory component appended to the owning directory.
pub open spec fn duplicates_suffix() -> Seq<u8> {
    seq![
        ('/' as u8),
        ('d' as u8),
        ('u' as u8),
        ('p' as u8),
        ('l' as u8),
        ('i' as u8),
        ('c' as u8),
        ('a' as u8),
        ('t' as u8),
        ('e' as u8),
        ('s' as u8),
    ]
}

/// The quarantine path of a directory: `<directory>/duplicates`.
pub fn quarantine_dir_path(dir: &Vec<u8>) -> (r: Vec<u8>)
    ensures
        r@ == dir@ + duplicates_suffix(),
{
    let mut r = copy_bytes(dir);
    r.push('/' as u8);
    r.push('d' as u8);
    r.push('u' as u8);
    r.push('p' as u8);
    r.push('l' as u8);
    r.push('i' as u8);
    r.push('c' as u8);
    r.push('a' as u8);
    r.push('t' as u8);
    r.push('e' as u8);
    r.push('s' as u8);
    proof {
        assert(r@ =~= dir@ + duplicates_suffix());
    }
    r
}

/// One planned relocation: a source path and its quarantine destination.
pub struct MoveOp {
    pub source: Vec<u8>,
    pub dest: Vec<u8>,
}

/// The mathematical move.
pub struct MoveOpView {
    pub source: Seq<u8>,
    pub dest: Seq<u8>,
}

impl View for MoveOp {
    type V = MoveOpView;

    open spec fn view(&self) -> MoveOpView {
        MoveOpView { source: self.source@, dest: self.dest@ }
    }
}

/// The views of a sequence of moves.
pub open spec fn move_views(s: Seq<MoveOp>) -> Seq<MoveOpView> {
    s.map_values(|m: MoveOp| m@)
}

/// The move planned for one record: the file keeps its name and goes
/// under the quarantine directory.
pub open spec fn move_for(r: RecordView, q: Seq<u8>) -> MoveOpView {
    MoveOpView { source: r.path, dest: q + seq![('/' as u8)] + file_name_spec(r.path) }
}

/// The moves planned for one group: one per record that has a file name.
pub open spec fn group_moves(rs: Seq<RecordView>, q: Seq<u8>) -> Seq<MoveOpView>
    decreases rs.len(),
{
    if rs.len() == 0 {
        seq![]
    } else if file_name_spec(rs.last().path).len() > 0 {
        group_moves(rs.drop_last(), q).push(move_for(rs.last(), q))
    } else {
        group_moves(rs.drop_last(), q)
    }
}

/// The full relocation plan: the moves of every duplicate-sized group
/// (two or more members) in order; singleton groups are left untouched.
pub open spec fn plan_spec(gs: Seq<GroupView>, q: Seq<u8>) -> Seq<MoveOpView>
    decreases gs.len(),
{
    if gs.len() == 0 {
        seq![]
    } else {
        plan_spec(gs.drop_last(), q) + if gs.last().records.len() >= 2 {
            group_moves(gs.last().records, q)
        } else {
            seq![]
        }
    }
}

proof fn lemma_group_moves_push(rs: Seq<RecordView>, r: RecordView, q: Seq<u8>)
    ensures
        group_moves(rs.push(r), q) == if file_name_spec(r.path).len() > 0 {
            group_moves(rs, q).push(move_for(r, q))
        } else {
            group_moves(rs, q)
        },
{
    assert(rs.push(r).drop_last() =~= rs);
}

proof fn lemma_plan_push(gs: Seq<GroupView>, g: GroupView, q: Seq<u8>)
    ensures
        plan_spec(gs.push(g), q) == plan_spec(gs, q) + if g.records.len() >= 2 {
            group_moves(g.records, q)
        } else {
            seq![]
        },
{
    assert(gs.push(g).drop_last() =~= gs);
}

fn dest_path(q: &Vec<u8>, name: &Vec<u8>) -> (r: Vec<u8>)
    ensures
        r@ == q@ + seq![('/' as u8)] + name@,
{
    let mut r = copy_bytes(q);
    r.push('/' as u8);
    let mut i: usize = 0;
    while i < name.len()
        invariant
            i <= name@.len(),
            r@ == q@ + seq![('/' as u8)] + name@.take(i as int),
        decreases name@.len() - i,
    {
        r.push(name[i]);
        i = i + 1;
        proof {
            assert(r@ =~= q@ + seq![('/' as u8)] + name@.take(i as int));
        }
    }
    proof {
        assert(r@ =~= q@ + seq![('/' as u8)] + name@);
    }
    r
}

/// Plans the relocation of every member of every duplicate-sized group.
pub fn plan_moves(groups: &Vec<Group>, quarantine: &Vec<u8>) -> (plan: Vec<MoveOp>)
    ensures
        move_views(plan@) == plan_spec(group_views(groups@), quarantine@),
{
    let ghost gs = group_views(groups@);
    let mut plan: Vec<MoveOp> = Vec::new();
    let mut j: usize = 0;
    while j < groups.len()
        invariant
            j <= groups@.len(),
            gs == group_views(groups@),
            move_views(plan@) == plan_spec(gs.take(j as int), quarantine@),
        decreases groups@.len() - j,
    {
        proof {
            assert(gs.take(j as int + 1) =~= gs.take(j as int).push(gs[j as int]));
            lemma_plan_push(gs.take(j as int), gs[j as int], quarantine@);
        }
        if groups[j].records.len() >= 2 {
            let ghost rs = gs[j as int].records;
            let ghost before = move_views(plan@);
            let mut k: usize = 0;
            while k < groups[j].records.len()
                invariant
                    j < groups@.len(),
                    k <= rs.len(),
                    gs == group_views(groups@),
                    rs == gs[j as int].records,
                    rs.len() == groups@[j as int].records@.len(),
                    before == plan_spec(gs.take(j as int), quarantine@),
                    move_views(plan@) == before + group_moves(rs.take(k as int), quarantine@),
                decreases rs.len() - k,
            {
                proof {
                    assert(rs.take(k as int + 1) =~= rs.take(k as int).push(rs[k as int]));
                    lemma_group_moves_push(rs.take(k as int), rs[k as int], quarantine@);
                    assert(rs[k as int] == groups@[j as int].records@[k as int]@);
                }
                let name = file_name_of(&groups[j].records[k].path);
                if name.len() > 0 {
                    let op = MoveOp {
                        source: copy_bytes(&groups[j].records[k].path),
                        dest: dest_path(quarantine, &name),
                    };
                    proof {
                        assert(op@ == move_for(rs[k as int], quarantine@));
                    }
                    let ghost pv = move_views(plan@);
                    plan.push(op);
                    proof {
                        assert(move_views(plan@) =~= pv.push(op@));
                        assert(group_moves(rs.take(k as int + 1), quarantine@) == group_moves(
                            rs.take(k as int),
                            quarantine@,
                        ).push(move_for(rs[k as int], quarantine@)));
                        assert(move_views(plan@) =~= before + group_moves(
                            rs.take(k as int + 1),
                            quarantine@,
                        ));
                    }
                }
                k = k + 1;
            }
            proof {
                assert(rs.take(rs.len() as int) =~= rs);
            }
        } else {
            proof {
                assert(move_views(plan@) =~= plan_spec(gs.take(j as int), quarantine@) + Seq::<
                    MoveOpView,
                >::empty());
            }
        }
        j = j + 1;
    }
    proof {
        assert(gs.take(groups@.len() as int) =~= gs);
    }
    plan
}

/// Whether a rename from `src` to `dst` succeeds against the set `fs` of
/// existing files: the source must exist and the destination must be
/// free. An occupied destination is a collision and the move fails.
pub open spec fn rename_ok(fs: Set<Seq<u8>>, src: Seq<u8>, dst: Seq<u8>) -> bool {
    fs.contains(src) && !fs.contains(dst)
}

/// The files after a rename attempt: on success the source is gone and
/// the destination exists; a failed attempt changes nothing.
pub open spec fn rename_result(fs: Set<Seq<u8>>, src: Seq<u8>, dst: Seq<u8>) -> Set<Seq<u8>> {
    if rename_ok(fs, src, dst) {
        fs.remove(src).insert(dst)
    } else {
        fs
    }
}

/// Move-safety law: a move either fully succeeds — afterwards exactly the
/// destination exists and the source is gone — or fully fails, leaving
/// every file, the source included, exactly where it was. A file is never
/// deleted without a confirmed successful move.
pub proof fn lemma_move_safety(fs: Set<Seq<u8>>, src: Seq<u8>, dst: Seq<u8>)
    ensures
        rename_ok(fs, src, dst) ==> src != dst && rename_result(fs, src, dst).contains(dst)
            && !rename_result(fs, src, dst).contains(src),
        !rename_ok(fs, src, dst) ==> rename_result(fs, src, dst) == fs,
{
}

/// An executable model of the path-level state the relocator touches:
/// the set of files that currently exist. The surrounding program
/// performs the real renames with the same decision rule; the model
/// carries the verified semantics and lets the move laws be exercised.
pub struct PathStore {
    paths: Vec<Vec<u8>>,
}

impl View for PathStore {
    type V = Set<Seq<u8>>;

    /// The set of existing paths.
    closed spec fn view(&self) -> Set<Seq<u8>> {
        byte_views(self.paths@).to_set()
    }
}

impl PathStore {
    /// Well-formed: no path is recorded twice.
    pub closed spec fn wf(&self) -> bool {
        forall|i: int, j: int|
            0 <= i < j < self.paths@.len() ==> (#[trigger] self.paths@[i]@) != (
            #[trigger] self.paths@[j]@)
    }

    /// An empty store: no files exist.
    pub fn new() -> (s: PathStore)
        ensures
            s@ == Set::<Seq<u8>>::empty(),
            s.wf(),
    {
        let s = PathStore { paths: Vec::new() };
        proof {
            assert(s@ =~= Set::<Seq<u8>>::empty());
        }
        s
    }

    fn index_of_path(&self, p: &Vec<u8>) -> (r: Option<usize>)
        ensures
            match r {
                Some(i) => i < self.paths@.len() && self.paths@[i as int]@ == p@,
                None => !self@.contains(p@),
            },
    {
        let mut i: usize = 0;
        while i < self.paths.len()
            invariant
                i <= self.paths@.len(),
                forall|k: int| 0 <= k < i ==> (#[trigger] self.paths@[k]@) != p@,
            decreases self.paths@.len() - i,
        {
            if bytes_eq(&self.paths[i], p) {
                return Some(i);
            }
            i = i + 1;
        }
        proof {
            if self@.contains(p@) {
                assert(byte_views(self.paths@).contains(p@));
                let k = choose|k: int|
                    0 <= k < byte_views(self.paths@).len() && byte_views(self.paths@)[k] == p@;
                assert(self.paths@[k]@ == p@);
            }
        }
        None
    }

    /// Whether `p` currently exists.
    pub fn contains_path(&self, p: &Vec<u8>) -> (r: bool)
        ensures
            r == self@.contains(p@),
    {
        match self.index_of_path(p) {
            Some(i) => {
                proof {
                    assert(byte_views(self.paths@)[i as int] == p@);
                    assert(byte_views(self.paths@).contains(p@));
                }
                true
            },
            None => false,
        }
    }

    /// Records `p` as an existing file.
    pub fn add_path(&mut self, p: &Vec<u8>)
        requires
            old(self).wf(),
        ensures
            final(self)@ == old(self)@.insert(p@),
            final(self).wf(),
    {
        if self.contains_path(p) {
            proof {
                assert(self@ =~= self@.insert(p@));
            }
        } else {
            let ghost pre = self.paths@;
            self.paths.push(copy_bytes(p));
            proof {
                assert forall|x: Seq<u8>| self@.contains(x) == old(self)@.insert(p@).contains(
                    x,
                ) by {
                    if x == p@ {
                        assert(byte_views(self.paths@)[pre.len() as int] == p@);
                        assert(byte_views(self.paths@).contains(x));
                    } else {
                        if byte_views(self.paths@).contains(x) {
                            let k = choose|k: int|
                                0 <= k < byte_views(self.paths@).len() && byte_views(
                                    self.paths@,
                                )[k] == x;
                            assert(byte_views(pre)[k] == x);
                        }
                        if byte_views(pre).contains(x) {
                            let k = choose|k: int|
                                0 <= k < byte_views(pre).len() && byte_views(pre)[k] == x;
                            assert(byte_views(self.paths@)[k] == x);
                        }
                    }
                }
                assert(self@ =~= old(self)@.insert(p@));
                assert forall|i: int, j: int| 0 <= i < j < self.paths@.len() implies (
                #[trigger] self.paths@[i]@) != (#[trigger] self.paths@[j]@) by {
                    if j == pre.len() as int && self.paths@[i]@ == p@ {
                        assert(byte_views(pre)[i] == p@);
                        assert(byte_views(pre).contains(p@));
                    }
                }
            }
        }
    }

    /// Attempts a rename: succeeds exactly when the source exists and the
    /// destination is free, and then the file exists only at the
    /// destination; on failure nothing changes.
    pub fn rename_path(&mut self, src: &Vec<u8>, dst: &Vec<u8>) -> (ok: bool)
        requires
            old(self).wf(),
        ensures
            ok == rename_ok(old(self)@, src@, dst@),
            final(self)@ == rename_result(old(self)@, src@, dst@),
            final(self).wf(),
    {
        if self.contains_path(dst) {
            return false;
        }
        let idx = match self.index_of_path(src) {
            None => {
                return false;
            },
            Some(i) => i,
        };
        proof {
            assert(byte_views(self.paths@)[idx as int] == src@);
            assert(self@.contains(src@));
        }
        let ghost pre = self.paths@;
        self.paths.remove(idx);
        self.paths.push(copy_bytes(dst));
        proof {
            pre.remove_ensures(idx as int);
            let post = self.paths@;
            assert(post.len() == pre.len());
            assert(post[pre.len() - 1]@ == dst@);
            assert forall|x: Seq<u8>| self@.contains(x) == rename_result(
                byte_views(pre).to_set(),
                src@,
                dst@,
            ).contains(x) by {
                let target = byte_views(pre).to_set().remove(src@).insert(dst@);
                if x == dst@ {
                    assert(byte_views(post)[post.len() - 1] == dst@);
                    assert(byte_views(post).contains(x));
                } else {
                    if byte_views(post).contains(x) {
                        let k = choose|k: int|
                            0 <= k < byte_views(post).len() && byte_views(post)[k] == x;
                        assert(post[k]@ == x);
                        assert(k < pre.len() - 1);
                        let korig: int = if k < idx as int {
                            k
                        } else {
                            k + 1
                        };
                        assert(pre[korig]@ == x);
                        assert(byte_views(pre)[korig] == x);
                        assert(korig != idx as int);
                        assert(x != src@);
                        assert(target.contains(x));
                    }
                    if target.contains(x) {
                        assert(byte_views(pre).contains(x));
                        let k = choose|k: int|
                            0 <= k < byte_views(pre).len() && byte_views(pre)[k] == x;
                        assert(x != src@);
                        assert(k != idx as int);
                        let knew: int = if k < idx as int {
                            k
                        } else {
                            k - 1
                        };
                        assert(post[knew]@ == x);
                        assert(byte_views(post)[knew] == x);
                        assert(byte_views(post).contains(x));
                    }
                }
            }
            assert(self@ =~= rename_result(old(self)@, src@, dst@));
            assert forall|i: int, j: int| 0 <= i < j < post.len() implies (#[trigger] post[i]@)
                != (#[trigger] post[j]@) by {
                let oi: int = if i < idx as int {
                    i
                } else {
                    i + 1
                };
                assert(post[i]@ == pre[oi]@);
                if j < post.len() - 1 {
                    let oj: int = if j < idx as int {
                        j
                    } else {
                        j + 1
                    };
                    assert(post[j]@ == pre[oj]@);
                } else {
                    if pre[oi]@ == dst@ {
                        assert(byte_views(pre)[oi] == dst@);
                        assert(byte_views(pre).contains(dst@));
                    }
                }
            }
        }
        true
    }
}

/// The files after every move of `plan` has been attempted in order.
pub open spec fn store_after(fs: Set<Seq<u8>>, plan: Seq<MoveOpView>) -> Set<Seq<u8>>
    decreases plan.len(),
{
    if plan.len() == 0 {
        fs
    } else {
        rename_result(store_after(fs, plan.drop_last()), plan.last().source, plan.last().dest)
    }
}

/// The outcome of each move of `plan`, attempted in order.
pub open spec fn outcomes_spec(fs: Set<Seq<u8>>, plan: Seq<MoveOpView>) -> Seq<bool>
    decreases plan.len(),
{
    if plan.len() == 0 {
        seq![]
    } else {
        outcomes_spec(fs, plan.drop_last()).push(
            rename_ok(store_after(fs, plan.drop_last()), plan.last().source, plan.last().dest),
        )
    }
}

/// Attempts every planned move in order; a failed move leaves its source
/// in place and processing continues with the next one.
pub fn apply_moves(store: &mut PathStore, plan: &Vec<MoveOp>) -> (outcomes: Vec<bool>)
    requires
        old(store).wf(),
    ensures
        outcomes@ == outcomes_spec(old(store)@, move_views(plan@)),
        final(store)@ == store_after(old(store)@, move_views(plan@)),
        final(store).wf(),
{
    let ghost fs0 = store@;
    let ghost mv = move_views(plan@);
    let mut outcomes: Vec<bool> = Vec::new();
    let mut i: usize = 0;
    while i < plan.len()
        invariant
            i <= plan@.len(),
            mv == move_views(plan@),
            store.wf(),
            store@ == store_after(fs0, mv.take(i as int)),
            outcomes@ == outcomes_spec(fs0, mv.take(i as int)),
        decreases plan@.len() - i,
    {
        proof {
            assert(mv.take(i as int + 1).drop_last() =~= mv.take(i as int));
            assert(mv.take(i as int + 1).last() == mv[i as int]);
            assert(mv[i as int] == plan@[i as int]@);
        }
        let ok = store.rename_path(&plan[i].source, &plan[i].dest);
        outcomes.push(ok);
        i = i + 1;
        proof {
            assert(outcomes@ =~= outcomes_spec(fs0, mv.take(i as int)));
        }
    }
    proof {
        assert(mv.take(plan@.len() as int) =~= mv);
    }
    outcomes
}

/// How many moves succeeded.
pub open spec fn count_true(s: Seq<bool>) -> int
    decreases s.len(),
{
    if s.len() == 0 {
        0
    } else {
        count_true(s.drop_last()) + if s.last() {
            1int
        } else {
            0int
        }
    }
}

/// The moves that failed, in order: their sources are still in place and
/// each is to be reported as a per-file warning.
pub open spec fn failed_moves_spec(plan: Seq<MoveOpView>, oc: Seq<bool>) -> Seq<MoveOpView>
    decreases plan.len(),
{
    if plan.len() == 0 || plan.len() != oc.len() {
        seq![]
    } else if !oc.last() {
        failed_moves_spec(plan.drop_last(), oc.drop_last()).push(plan.last())
    } else {
        failed_moves_spec(plan.drop_last(), oc.drop_last())
    }
}

proof fn lemma_count_true_bounds(s: Seq<bool>)
    ensures
        0 <= count_true(s) <= s.len(),
    decreases s.len(),
{
    if s.len() > 0 {
        lemma_count_true_bounds(s.drop_last());
    }
}

/// Cleanup support law: when every move attempt failed, the files stand
/// exactly as they were -- nothing entered the quarantine directory, so
/// removing the freshly created, still-empty quarantine directory
/// restores the state from before the run.
pub proof fn lemma_no_moves_no_change(fs: Set<Seq<u8>>, plan: Seq<MoveOpView>)
    requires
        count_true(outcomes_spec(fs, plan)) == 0,
    ensures
        store_after(fs, plan) == fs,
    decreases plan.len(),
{
    if plan.len() > 0 {
        let dl = plan.drop_last();
        let prior = outcomes_spec(fs, dl);
        let last_ok = rename_ok(store_after(fs, dl), plan.last().source, plan.last().dest);
        assert(outcomes_spec(fs, plan) == prior.push(last_ok));
        assert(prior.push(last_ok).drop_last() =~= prior);
        assert(prior.push(last_ok).last() == last_ok);
        assert(count_true(prior.push(last_ok)) == count_true(prior) + if last_ok {
            1int
        } else {
            0int
        });
        lemma_count_true_bounds(prior);
        assert(!last_ok);
        lemma_no_moves_no_change(fs, dl);
    }
}

/// The relocator's verdict on one directory after all moves were tried.
pub struct MoveSummary {
    pub moved: usize,
    pub failed: Vec<MoveOp>,
    pub remove_quarantine: bool,
}

/// Summarises the outcomes: how many files moved, which moves failed,
/// and whether the quarantine directory is to be removed -- exactly when
/// zero files were moved.
pub fn summarize_moves(plan: &Vec<MoveOp>, outcomes: &Vec<bool>) -> (s: MoveSummary)
    requires
        plan@.len() == outcomes@.len(),
    ensures
        s.moved == count_true(outcomes@),
        move_views(s.failed@) == failed_moves_spec(move_views(plan@), outcomes@),
        s.remove_quarantine == (count_true(outcomes@) == 0),
{
    let ghost mv = move_views(plan@);
    let mut moved: usize = 0;
    let mut failed: Vec<MoveOp> = Vec::new();
    let mut i: usize = 0;
    while i < plan.len()
        invariant
            i <= plan@.len(),
            plan@.len() == outcomes@.len(),
            mv == move_views(plan@),
            moved <= i,
            moved == count_true(outcomes@.take(i as int)),
            move_views(failed@) == failed_moves_spec(mv.take(i as int), outcomes@.take(i as int)),
        decreases plan@.len() - i,
    {
        proof {
            assert(mv.take(i as int + 1).drop_last() =~= mv.take(i as int));
            assert(outcomes@.take(i as int + 1).drop_last() =~= outcomes@.take(i as int));
            assert(mv.take(i as int + 1).last() == plan@[i as int]@);
            assert(outcomes@.take(i as int + 1).last() == outcomes@[i as int]);
        }
        if outcomes[i] {
            moved = moved + 1;
        } else {
            let op = MoveOp {
                source: copy_bytes(&plan[i].source),
                dest: copy_bytes(&plan[i].dest),
            };
            failed.push(op);
            proof {
                assert(move_views(failed@) =~= failed_moves_spec(
                    mv.take(i as int + 1),
                    outcomes@.take(i as int + 1),
                ));
            }
        }
        i = i + 1;
    }
    proof {
        assert(mv.take(plan@.len() as int) =~= mv);
        assert(outcomes@.take(plan@.len() as int) =~= outcomes@);
    }
    MoveSummary { moved, failed, remove_quarantine: moved == 0 }
}

} // verus!
