//! The duplicate grouper: buckets hashed records by fingerprint, keeping
//! scan order inside each bucket, together with the partition law and the
//! law that the grouping depends only on which pairs were grouped.

use vstd::prelude::*;
use vstd::seq_lib::to_multiset_contains;

use crate::records::{HashedRecord, HashedRecordView, ImageRecord, RecordView};
use crate::records::{copy_record, hashed_views, record_views};

verus! {

/// All records of `s` carrying fingerprint `fp`, in order.
pub open spec fn records_with(s: Seq<HashedRecordView>, fp: u64) -> Seq<RecordView>
    decreases s.len(),
{
    if s.len() == 0 {
        seq![]
    } else if s.last().fingerprint == fp {
        records_with(s.drop_last(), fp).push(s.last().record)
    } else {
        records_with(s.drop_last(), fp)
    }
}

/// One bucket of the grouping: a fingerprint and the records that carry it.
pub struct Group {
    pub fingerprint: u64,
    pub records: Vec<ImageRecord>,
}

/// The mathematical bucket.
pub struct GroupView {
    pub fingerprint: u64,
    pub records: Seq<RecordView>,
}

impl View for Group {
    type V = GroupView;

    open spec fn view(&self) -> GroupView {
        GroupView { fingerprint: self.fingerprint, records: record_views(self.records@) }
    }
}

/// The views of a sequence of groups.
pub open spec fn group_views(s: Seq<Group>) -> Seq<GroupView> {
    s.map_values(|g: Group| g@)
}

/// Whether some group in `g` is keyed by `fp`.
pub open spec fn key_present(g: Seq<GroupView>, fp: u64) -> bool {
    exists|j: int| 0 <= j < g.len() && (#[trigger] g[j].fingerprint) == fp
}

/// Index of the first record of `s` carrying `fp`, or the length of `s`
/// when none does.
pub open spec fn first_index_with(s: Seq<HashedRecordView>, fp: u64) -> int
    decreases s.len(),
{
    if s.len() == 0 {
        0
    } else if s.first().fingerprint == fp {
        0
    } else {
        1 + first_index_with(s.drop_first(), fp)
    }
}

proof fn lemma_first_index_with(s: Seq<HashedRecordView>, fp: u64)
    ensures
        0 <= first_index_with(s, fp) <= s.len(),
        first_index_with(s, fp) < s.len() ==> s[first_index_with(s, fp)].fingerprint == fp,
        (first_index_with(s, fp) == s.len()) <==> (forall|i: int|
            0 <= i < s.len() ==> (#[trigger] s[i]).fingerprint != fp),
    decreases s.len(),
{
    if s.len() > 0 && s.first().fingerprint != fp {
        let s2 = s.drop_first();
        lemma_first_index_with(s2, fp);
        assert(forall|i: int| 0 <= i < s2.len() ==> (#[trigger] s2[i]) == s[i + 1]);
        let f = first_index_with(s, fp);
        if f < s.len() {
            assert(s[f] == s2[f - 1]);
        }
        if f == s.len() {
            assert forall|i: int| 0 <= i < s.len() implies (#[trigger] s[i]).fingerprint != fp by {
                if i > 0 {
                    assert(s[i] == s2[i - 1]);
                }
            }
        }
        if forall|i: int| 0 <= i < s.len() ==> (#[trigger] s[i]).fingerprint != fp {
            assert forall|i: int| 0 <= i < s2.len() implies (#[trigger] s2[i]).fingerprint
                != fp by {
                assert(s2[i] == s[i + 1]);
            }
        }
    }
}

proof fn lemma_first_index_with_push(s: Seq<HashedRecordView>, h: HashedRecordView, fp: u64)
    ensures
        first_index_with(s.push(h), fp) == if first_index_with(s, fp) < s.len() {
            first_index_with(s, fp)
        } else if h.fingerprint == fp {
            s.len() as int
        } else {
            s.len() as int + 1
        },
    decreases s.len(),
{
    lemma_first_index_with(s, fp);
    if s.len() == 0 {
        assert(s.push(h).first() == h);
        if h.fingerprint != fp {
            assert(s.push(h).drop_first() =~= Seq::<HashedRecordView>::empty());
            assert(first_index_with(Seq::<HashedRecordView>::empty(), fp) == 0);
            assert(first_index_with(s.push(h), fp) == 1);
        } else {
            assert(first_index_with(s.push(h), fp) == 0);
        }
    } else {
        assert(s.push(h).first() == s.first());
        if s.first().fingerprint != fp {
            assert(s.push(h).drop_first() =~= s.drop_first().push(h));
            lemma_first_index_with_push(s.drop_first(), h, fp);
            lemma_first_index_with(s.drop_first(), fp);
            assert(first_index_with(s.push(h), fp) == 1 + first_index_with(
                s.drop_first().push(h),
                fp,
            ));
            assert(first_index_with(s, fp) == 1 + first_index_with(s.drop_first(), fp));
        } else {
            assert(first_index_with(s.push(h), fp) == 0);
            assert(first_index_with(s, fp) == 0);
        }
    }
}

/// `g` is the duplicate-group table of `s`: fingerprints are unique keys,
/// each key's bucket holds exactly the records of `s` with that fingerprint
/// in scan order, no bucket is empty, every record of `s` has its own
/// fingerprint as a key, and the buckets stand in the order in which their
/// fingerprints first occurred — the table is fully determined by `s`.
pub open spec fn groups_of(s: Seq<HashedRecordView>, g: Seq<GroupView>) -> bool {
    &&& forall|j1: int, j2: int|
        0 <= j1 < j2 < g.len() ==> (#[trigger] g[j1].fingerprint) != (#[trigger] g[j2].fingerprint)
    &&& forall|j: int|
        0 <= j < g.len() ==> (#[trigger] g[j].records) == records_with(s, g[j].fingerprint)
    &&& forall|j: int| 0 <= j < g.len() ==> (#[trigger] g[j].records).len() >= 1
    &&& forall|i: int| 0 <= i < s.len() ==> key_present(g, (#[trigger] s[i]).fingerprint)
    &&& forall|j1: int, j2: int|
        #![trigger first_index_with(s, g[j1].fingerprint), first_index_with(s, g[j2].fingerprint)]
        0 <= j1 < j2 < g.len() ==> first_index_with(s, g[j1].fingerprint) < first_index_with(
            s,
            g[j2].fingerprint,
        )
}

proof fn lemma_key_first_stable(
    s: Seq<HashedRecordView>,
    h: HashedRecordView,
    g: Seq<GroupView>,
    jq: int,
)
    requires
        groups_of(s, g),
        0 <= jq < g.len(),
    ensures
        first_index_with(s, g[jq].fingerprint) < s.len(),
        first_index_with(s.push(h), g[jq].fingerprint) == first_index_with(s, g[jq].fingerprint),
{
    let fp = g[jq].fingerprint;
    assert(g[jq].records == records_with(s, fp));
    assert(g[jq].records.len() >= 1);
    lemma_records_with_to(s, fp, 0);
    let r = records_with(s, fp)[0];
    let i = choose|i: int|
        0 <= i < s.len() && (#[trigger] s[i]) == HashedRecordView { fingerprint: fp, record: r };
    lemma_first_index_with(s, fp);
    assert(first_index_with(s, fp) < s.len());
    lemma_first_index_with_push(s, h, fp);
}

proof fn lemma_records_with_push(s: Seq<HashedRecordView>, h: HashedRecordView, fp: u64)
    ensures
        records_with(s.push(h), fp) == if h.fingerprint == fp {
            records_with(s, fp).push(h.record)
        } else {
            records_with(s, fp)
        },
{
    assert(s.push(h).drop_last() =~= s);
    assert(s.push(h).last() == h);
}

proof fn lemma_records_with_absent(s: Seq<HashedRecordView>, fp: u64)
    requires
        forall|i: int| 0 <= i < s.len() ==> (#[trigger] s[i]).fingerprint != fp,
    ensures
        records_with(s, fp) == Seq::<RecordView>::empty(),
    decreases s.len(),
{
    if s.len() > 0 {
        assert(forall|i: int|
            0 <= i < s.drop_last().len() ==> (#[trigger] s.drop_last()[i]) == s[i]);
        lemma_records_with_absent(s.drop_last(), fp);
    }
}

fn find_group(groups: &Vec<Group>, fp: u64) -> (r: Option<usize>)
    ensures
        match r {
            Some(j) => j < groups@.len() && group_views(groups@)[j as int].fingerprint == fp,
            None => !key_present(group_views(groups@), fp),
        },
{
    let mut m: usize = 0;
    while m < groups.len()
        invariant
            m <= groups@.len(),
            forall|k: int| 0 <= k < m ==> group_views(groups@)[k].fingerprint != fp,
        decreases groups@.len() - m,
    {
        if groups[m].fingerprint == fp {
            return Some(m);
        }
        m = m + 1;
    }
    None
}

/// Buckets the hashed records by fingerprint. Pure: grouping cannot fail.
pub fn group_records(records: &Vec<HashedRecord>) -> (groups: Vec<Group>)
    ensures
        groups_of(hashed_views(records@), group_views(groups@)),
{
    let ghost all = hashed_views(records@);
    let mut groups: Vec<Group> = Vec::new();
    let mut i: usize = 0;
    while i < records.len()
        invariant
            i <= records@.len(),
            all == hashed_views(records@),
            groups_of(all.take(i as int), group_views(groups@)),
        decreases records@.len() - i,
    {
        let fp = records[i].fingerprint;
        let rec = copy_record(&records[i].record);
        let ghost h = all[i as int];
        let ghost s_pre = all.take(i as int);
        let ghost g_pre = group_views(groups@);
        proof {
            assert(all.take(i as int + 1) =~= s_pre.push(h));
            assert(h == records@[i as int]@);
            assert(rec@ == h.record);
        }
        match find_group(&groups, fp) {
            Some(j) => {
                let ghost gvec_pre = groups@;
                let mut g = groups.remove(j);
                g.records.push(rec);
                let ghost gg = g;
                groups.insert(j, g);
                proof {
                    gvec_pre.remove_ensures(j as int);
                    gvec_pre.remove(j as int).insert_ensures(j as int, gg);
                    assert(groups@.len() == gvec_pre.len());
                    assert(groups@[j as int] == gg);
                    assert forall|k: int|
                        0 <= k < groups@.len() && k != j as int implies groups@[k]
                        == gvec_pre[k] by {}
                    let g_post = group_views(groups@);
                    let updated = GroupView {
                        fingerprint: g_pre[j as int].fingerprint,
                        records: g_pre[j as int].records.push(h.record),
                    };
                    assert(gg@.records =~= updated.records);
                    assert(gg@ == updated);
                    assert(g_post =~~= g_pre.update(j as int, updated));
                    assert forall|jq: int| 0 <= jq < g_post.len() implies
                        (#[trigger] g_post[jq].records)
                        == records_with(s_pre.push(h), g_post[jq].fingerprint) by {
                        lemma_records_with_push(s_pre, h, g_post[jq].fingerprint);
                        if jq != j as int {
                            assert(g_pre[jq].fingerprint != fp);
                        }
                    }
                    assert forall|iq: int| 0 <= iq < s_pre.push(h).len() implies key_present(
                        g_post,
                        (#[trigger] s_pre.push(h)[iq]).fingerprint,
                    ) by {
                        if iq < s_pre.len() {
                            assert(s_pre.push(h)[iq] == s_pre[iq]);
                            let w = choose|j2: int|
                                0 <= j2 < g_pre.len() && (#[trigger] g_pre[j2].fingerprint)
                                    == s_pre[iq].fingerprint;
                            assert(g_post[w].fingerprint == g_pre[w].fingerprint);
                        } else {
                            assert(g_post[j as int].fingerprint == fp);
                        }
                    }
                    assert forall|j1: int, j2: int| 0 <= j1 < j2 < g_post.len() implies
                        first_index_with(s_pre.push(h), g_post[j1].fingerprint) < first_index_with(
                        s_pre.push(h),
                        g_post[j2].fingerprint,
                    ) by {
                        lemma_key_first_stable(s_pre, h, g_pre, j1);
                        lemma_key_first_stable(s_pre, h, g_pre, j2);
                        assert(g_post[j1].fingerprint == g_pre[j1].fingerprint);
                        assert(g_post[j2].fingerprint == g_pre[j2].fingerprint);
                    }
                    assert(groups_of(all.take(i as int + 1), g_post));
                }
            },
            None => {
                let g = Group { fingerprint: fp, records: vec_of_one(rec) };
                groups.push(g);
                proof {
                    let g_post = group_views(groups@);
                    let fresh = GroupView { fingerprint: fp, records: seq![h.record] };
                    assert(record_views(seq![rec]) =~= seq![h.record]);
                    assert(g_post =~~= g_pre.push(fresh));
                    assert forall|iq: int|
                        0 <= iq < s_pre.len() implies (#[trigger] s_pre[iq]).fingerprint != fp by {
                        if s_pre[iq].fingerprint == fp {
                            assert(key_present(g_pre, fp));
                        }
                    }
                    lemma_records_with_absent(s_pre, fp);
                    assert forall|jq: int| 0 <= jq < g_post.len() implies
                        (#[trigger] g_post[jq].records)
                        == records_with(s_pre.push(h), g_post[jq].fingerprint) by {
                        lemma_records_with_push(s_pre, h, g_post[jq].fingerprint);
                        if jq < g_pre.len() {
                            assert(g_post[jq] == g_pre[jq]);
                            if g_pre[jq].fingerprint == fp {
                                assert(key_present(g_pre, fp));
                            }
                        } else {
                            assert(g_post[jq] == fresh);
                            assert(records_with(s_pre.push(h), fp) =~= seq![h.record]);
                        }
                    }
                    assert forall|iq: int| 0 <= iq < s_pre.push(h).len() implies key_present(
                        g_post,
                        (#[trigger] s_pre.push(h)[iq]).fingerprint,
                    ) by {
                        if iq < s_pre.len() {
                            assert(s_pre.push(h)[iq] == s_pre[iq]);
                            let w = choose|j2: int|
                                0 <= j2 < g_pre.len() && (#[trigger] g_pre[j2].fingerprint)
                                    == s_pre[iq].fingerprint;
                            assert(g_post[w].fingerprint == g_pre[w].fingerprint);
                        } else {
                            assert(g_post[g_pre.len() as int].fingerprint == fp);
                        }
                    }
                    assert forall|j1: int, j2: int| 0 <= j1 < j2 < g_post.len() implies
                        first_index_with(s_pre.push(h), g_post[j1].fingerprint) < first_index_with(
                        s_pre.push(h),
                        g_post[j2].fingerprint,
                    ) by {
                        lemma_key_first_stable(s_pre, h, g_pre, j1);
                        assert(g_post[j1].fingerprint == g_pre[j1].fingerprint);
                        if j2 < g_pre.len() {
                            lemma_key_first_stable(s_pre, h, g_pre, j2);
                            assert(g_post[j2].fingerprint == g_pre[j2].fingerprint);
                        } else {
                            assert(g_post[j2].fingerprint == fp);
                            lemma_first_index_with(s_pre, fp);
                            assert(first_index_with(s_pre, fp) == s_pre.len());
                            lemma_first_index_with_push(s_pre, h, fp);
                            assert(first_index_with(s_pre.push(h), fp) == s_pre.len());
                        }
                    }
                    assert(groups_of(all.take(i as int + 1), g_post));
                }
            },
        }
        i = i + 1;
    }
    proof {
        assert(all.take(records@.len() as int) =~= all);
    }
    groups
}

fn vec_of_one(r: ImageRecord) -> (v: Vec<ImageRecord>)
    ensures
        v@ =~= seq![r],
{
    let mut v: Vec<ImageRecord> = Vec::new();
    v.push(r);
    v
}

/// Record `h` stands in some group keyed by its own fingerprint.
pub open spec fn appears_in_group(g: Seq<GroupView>, h: HashedRecordView) -> bool {
    exists|j: int|
        0 <= j < g.len() && (#[trigger] g[j].fingerprint) == h.fingerprint && g[j].records.contains(
            h.record,
        )
}

/// The pair of `fp` and `r` occurs in `s`.
pub open spec fn comes_from(s: Seq<HashedRecordView>, fp: u64, r: RecordView) -> bool {
    exists|i: int|
        0 <= i < s.len() && (#[trigger] s[i]) == HashedRecordView { fingerprint: fp, record: r }
}

proof fn lemma_records_with_from(s: Seq<HashedRecordView>, fp: u64, i: int)
    requires
        0 <= i < s.len(),
        s[i].fingerprint == fp,
    ensures
        records_with(s, fp).contains(s[i].record),
    decreases s.len(),
{
    let base = records_with(s.drop_last(), fp);
    if i == s.len() - 1 {
        assert(records_with(s, fp)[base.len() as int] == s[i].record);
    } else {
        assert(s.drop_last()[i] == s[i]);
        lemma_records_with_from(s.drop_last(), fp, i);
        let k = choose|k: int| 0 <= k < base.len() && base[k] == s[i].record;
        assert(records_with(s, fp)[k] == s[i].record);
    }
}

proof fn lemma_records_with_to(s: Seq<HashedRecordView>, fp: u64, k: int)
    requires
        0 <= k < records_with(s, fp).len(),
    ensures
        comes_from(s, fp, records_with(s, fp)[k]),
    decreases s.len(),
{
    let sub = records_with(s.drop_last(), fp);
    if s.last().fingerprint == fp && k == sub.len() {
        assert(s[s.len() - 1] == HashedRecordView {
            fingerprint: fp,
            record: records_with(s, fp)[k],
        });
    } else {
        lemma_records_with_to(s.drop_last(), fp, k);
        let r = records_with(s.drop_last(), fp)[k];
        let i = choose|i: int|
            0 <= i < s.drop_last().len() && (#[trigger] s.drop_last()[i]) == HashedRecordView {
                fingerprint: fp,
                record: r,
            };
        assert(s[i] == s.drop_last()[i]);
        assert(records_with(s, fp)[k] == r);
    }
}

/// Partition law: every hashed record stands in a group keyed by its own
/// fingerprint, the keys are unique, and every record of every group comes
/// from the hashed sequence -- the groups partition the hashed records.
pub proof fn lemma_group_partition(s: Seq<HashedRecordView>, g: Seq<GroupView>)
    requires
        groups_of(s, g),
    ensures
        forall|i: int| 0 <= i < s.len() ==> appears_in_group(g, #[trigger] s[i]),
        forall|j: int, k: int|
            0 <= j < g.len() && 0 <= k < g[j].records.len() ==> comes_from(
                s,
                g[j].fingerprint,
                #[trigger] g[j].records[k],
            ),
        forall|j1: int, j2: int|
            0 <= j1 < j2 < g.len() ==> (#[trigger] g[j1].fingerprint) != (
            #[trigger] g[j2].fingerprint),
{
    assert forall|i: int| 0 <= i < s.len() implies appears_in_group(g, #[trigger] s[i]) by {
        let j = choose|j: int|
            0 <= j < g.len() && (#[trigger] g[j].fingerprint) == s[i].fingerprint;
        lemma_records_with_from(s, s[i].fingerprint, i);
    }
    assert forall|j: int, k: int|
        0 <= j < g.len() && 0 <= k < g[j].records.len() implies comes_from(
        s,
        g[j].fingerprint,
        #[trigger] g[j].records[k],
    ) by {
        lemma_records_with_to(s, g[j].fingerprint, k);
    }
}

/// The set of paths grouped under fingerprint `fp`.
pub open spec fn group_paths(g: Seq<GroupView>, fp: u64) -> Set<Seq<u8>> {
    Set::new(
        |p: Seq<u8>|
            exists|j: int, k: int|
                #![trigger g[j].records[k]]
                0 <= j < g.len() && g[j].fingerprint == fp && 0 <= k < g[j].records.len()
                    && g[j].records[k].path == p,
    )
}

/// The mapping from each present fingerprint to its set of grouped paths.
pub open spec fn fingerprint_paths(g: Seq<GroupView>) -> Map<u64, Set<Seq<u8>>> {
    Map::new(|fp: u64| key_present(g, fp), |fp: u64| group_paths(g, fp))
}

proof fn lemma_key_transfer(
    s1: Seq<HashedRecordView>,
    g1: Seq<GroupView>,
    s2: Seq<HashedRecordView>,
    g2: Seq<GroupView>,
    fp: u64,
)
    requires
        groups_of(s1, g1),
        groups_of(s2, g2),
        s1.to_multiset() == s2.to_multiset(),
        key_present(g1, fp),
    ensures
        key_present(g2, fp),
{
    let j = choose|j: int| 0 <= j < g1.len() && (#[trigger] g1[j].fingerprint) == fp;
    assert(g1[j].records == records_with(s1, fp));
    assert(g1[j].records.len() >= 1);
    lemma_records_with_to(s1, fp, 0);
    let r = records_with(s1, fp)[0];
    let i = choose|i: int|
        0 <= i < s1.len() && (#[trigger] s1[i]) == HashedRecordView { fingerprint: fp, record: r };
    to_multiset_contains(s1, s1[i]);
    to_multiset_contains(s2, s1[i]);
    assert(s1.contains(s1[i]));
    let i2 = choose|i2: int| 0 <= i2 < s2.len() && (#[trigger] s2[i2]) == s1[i];
    assert(key_present(g2, s2[i2].fingerprint));
}

proof fn lemma_path_transfer(
    s1: Seq<HashedRecordView>,
    g1: Seq<GroupView>,
    s2: Seq<HashedRecordView>,
    g2: Seq<GroupView>,
    fp: u64,
    p: Seq<u8>,
)
    requires
        groups_of(s1, g1),
        groups_of(s2, g2),
        s1.to_multiset() == s2.to_multiset(),
        group_paths(g1, fp).contains(p),
    ensures
        group_paths(g2, fp).contains(p),
{
    let (j, k): (int, int) = choose|j: int, k: int|
        #![trigger g1[j].records[k]]
        0 <= j < g1.len() && g1[j].fingerprint == fp && 0 <= k < g1[j].records.len()
            && g1[j].records[k].path == p;
    lemma_records_with_to(s1, fp, k);
    let r = records_with(s1, fp)[k];
    let i = choose|i: int|
        0 <= i < s1.len() && (#[trigger] s1[i]) == HashedRecordView { fingerprint: fp, record: r };
    to_multiset_contains(s1, s1[i]);
    to_multiset_contains(s2, s1[i]);
    assert(s1.contains(s1[i]));
    let i2 = choose|i2: int| 0 <= i2 < s2.len() && (#[trigger] s2[i2]) == s1[i];
    lemma_records_with_from(s2, fp, i2);
    assert(key_present(g2, fp));
    let j2 = choose|j2: int| 0 <= j2 < g2.len() && (#[trigger] g2[j2].fingerprint) == fp;
    let k2 = choose|k2: int|
        0 <= k2 < g2[j2].records.len() && (#[trigger] g2[j2].records[k2]) == r;
    assert(g2[j2].records[k2].path == p);
}

/// Grouping law: the fingerprint-to-path-set mapping is determined by
/// which (fingerprint, record) pairs were grouped, not by their order --
/// regrouping the same pairs, in any order and any number of times,
/// yields the same mapping.
pub proof fn lemma_grouping_determined(
    s1: Seq<HashedRecordView>,
    g1: Seq<GroupView>,
    s2: Seq<HashedRecordView>,
    g2: Seq<GroupView>,
)
    requires
        groups_of(s1, g1),
        groups_of(s2, g2),
        s1.to_multiset() == s2.to_multiset(),
    ensures
        fingerprint_paths(g1) == fingerprint_paths(g2),
{
    assert forall|fp: u64| #[trigger] key_present(g1, fp) == key_present(g2, fp) by {
        if key_present(g1, fp) {
            lemma_key_transfer(s1, g1, s2, g2, fp);
        }
        if key_present(g2, fp) {
            lemma_key_transfer(s2, g2, s1, g1, fp);
        }
    }
    assert forall|fp: u64| #[trigger] group_paths(g1, fp) == group_paths(g2, fp) by {
        assert forall|p: Seq<u8>| group_paths(g1, fp).contains(p) == group_paths(
            g2,
            fp,
        ).contains(p) by {
            if group_paths(g1, fp).contains(p) {
                lemma_path_transfer(s1, g1, s2, g2, fp, p);
            }
            if group_paths(g2, fp).contains(p) {
                lemma_path_transfer(s2, g2, s1, g1, fp, p);
            }
        }
        assert(group_paths(g1, fp) =~= group_paths(g2, fp));
    }
    assert(fingerprint_paths(g1) =~= fingerprint_paths(g2));
}

} // verus!
