use vstd::prelude::*;
use vstd::multiset::Multiset;

verus! {

broadcast use vstd::seq_lib::group_to_multiset_ensures;

/// Statistics of one data file, as recorded in the file list.
#[derive(Clone, Copy, Debug, Default)]
pub struct FileMeta {
    pub min_ts: i64,
    pub max_ts: i64,
    pub records: i64,
    pub original_size: i64,
    pub compressed_size: i64,
    pub index_size: i64,
}

/// One data file in object storage.
#[derive(Clone, Debug, Default)]
pub struct FileKey {
    pub id: i64,
    pub account: String,
    pub key: String,
    pub meta: FileMeta,
    pub deleted: bool,
    /// One flag per row: the rows that the index found, when it narrowed the file.
    pub segment_ids: Option<Vec<bool>>,
}

/// A file whose time range is well formed.
pub open spec fn file_wf(f: FileKey) -> bool {
    f.meta.min_ts <= f.meta.max_ts
}

pub open spec fn files_wf(s: Seq<FileKey>) -> bool {
    forall|i: int| 0 <= i < s.len() ==> file_wf(#[trigger] s[i])
}

/// Each file starts strictly after the previous one ends.
pub open spec fn non_overlapping(s: Seq<FileKey>) -> bool {
    forall|i: int| 0 <= i < s.len() - 1 ==> #[trigger] s[i].meta.max_ts < s[i + 1].meta.min_ts
}

/// Files in ascending order of `max_ts`.
pub open spec fn sorted_by_max_ts(s: Seq<FileKey>) -> bool {
    forall|i: int, j: int| 0 <= i <= j < s.len() ==> #[trigger] s[i].meta.max_ts <= #[trigger] s[j].meta.max_ts
}

/// A group that a scan can read as one time-ordered stream.
pub open spec fn group_ok(g: Seq<FileKey>) -> bool {
    &&& g.len() > 0
    &&& non_overlapping(g)
    &&& files_wf(g)
}

pub open spec fn groups_ok(gs: Seq<Vec<FileKey>>) -> bool {
    forall|i: int| 0 <= i < gs.len() ==> group_ok(#[trigger] gs[i]@)
}

/// All files held by a list of groups.
pub open spec fn groups_files(gs: Seq<Vec<FileKey>>) -> Multiset<FileKey>
    decreases gs.len(),
{
    if gs.len() == 0 {
        Multiset::empty()
    } else {
        groups_files(gs.drop_last()).add(gs.last()@.to_multiset())
    }
}

/// The files at even positions.
pub open spec fn evens(s: Seq<FileKey>) -> Seq<FileKey> {
    Seq::new(((s.len() + 1) / 2) as nat, |i: int| s[2 * i])
}

/// The files at odd positions.
pub open spec fn odds(s: Seq<FileKey>) -> Seq<FileKey> {
    Seq::new((s.len() / 2) as nat, |i: int| s[2 * i + 1])
}

pub proof fn lemma_groups_files_push(gs: Seq<Vec<FileKey>>, g: Vec<FileKey>)
    ensures
        groups_files(gs.push(g)) == groups_files(gs).add(g@.to_multiset()),
{
    assert(gs.push(g).drop_last() =~= gs);
}

pub proof fn lemma_groups_files_remove(gs: Seq<Vec<FileKey>>, i: int)
    requires
        0 <= i < gs.len(),
    ensures
        groups_files(gs) == groups_files(gs.remove(i)).add(gs[i]@.to_multiset()),
    decreases gs.len(),
{
    if i == gs.len() - 1 {
        assert(gs.remove(i) =~= gs.drop_last());
    } else {
        let dl = gs.drop_last();
        assert(gs.remove(i).drop_last() =~= dl.remove(i));
        assert(gs.remove(i).last() == gs.last());
        lemma_groups_files_remove(dl, i);
        assert(dl[i] == gs[i]);
        let a = groups_files(dl.remove(i));
        let b = gs[i]@.to_multiset();
        let c = gs.last()@.to_multiset();
        assert(a.add(b).add(c) =~= a.add(c).add(b));
    }
}

pub proof fn lemma_groups_files_insert(gs: Seq<Vec<FileKey>>, i: int, g: Vec<FileKey>)
    requires
        0 <= i <= gs.len(),
    ensures
        groups_files(gs.insert(i, g)) == groups_files(gs).add(g@.to_multiset()),
{
    lemma_groups_files_remove(gs.insert(i, g), i);
    assert(gs.insert(i, g).remove(i) =~= gs);
}

/// Non-empty groups hold at least one file each; groups of one file hold exactly one.
proof fn lemma_groups_count(gs: Seq<Vec<FileKey>>)
    requires
        forall|i: int| 0 <= i < gs.len() ==> #[trigger] gs[i]@.len() > 0,
    ensures
        gs.len() <= groups_files(gs).len(),
        (forall|i: int| 0 <= i < gs.len() ==> #[trigger] gs[i]@.len() == 1) ==> gs.len()
            == groups_files(gs).len(),
    decreases gs.len(),
{
    if gs.len() > 0 {
        let dl = gs.drop_last();
        assert forall|i: int| 0 <= i < dl.len() implies #[trigger] dl[i]@.len() > 0 by {
            assert(dl[i] == gs[i]);
        }
        lemma_groups_count(dl);
        if forall|i: int| 0 <= i < gs.len() ==> #[trigger] gs[i]@.len() == 1 {
            assert forall|i: int| 0 <= i < dl.len() implies #[trigger] dl[i]@.len() == 1 by {
                assert(dl[i] == gs[i]);
            }
        }
    }
}

/// A group of non-overlapping files is in ascending order of `max_ts`, so a scan can
/// merge it as one time-sorted stream.
pub proof fn group_is_time_sorted(g: Seq<FileKey>)
    requires
        non_overlapping(g),
        files_wf(g),
    ensures
        sorted_by_max_ts(g),
{
    assert forall|i: int, j: int| 0 <= i <= j < g.len() implies #[trigger] g[i].meta.max_ts
        <= #[trigger] g[j].meta.max_ts by {
        lemma_max_ts_step(g, i, j);
    }
}

proof fn lemma_max_ts_step(g: Seq<FileKey>, i: int, j: int)
    requires
        non_overlapping(g),
        files_wf(g),
        0 <= i <= j < g.len(),
    ensures
        g[i].meta.max_ts <= g[j].meta.max_ts,
    decreases j - i,
{
    if i < j {
        lemma_max_ts_step(g, i, j - 1);
        assert(g[j - 1].meta.max_ts < g[j].meta.min_ts);
        assert(file_wf(g[j]));
    }
}

/// Index of the first group with the most files (0 for an empty list).
pub fn find_max_group_index(groups: &[Vec<FileKey>]) -> (r: usize)
    ensures
        groups@.len() == 0 ==> r == 0,
        groups@.len() > 0 ==> {
            &&& r < groups@.len()
            &&& forall|j: int| 0 <= j < groups@.len() ==> groups@[j]@.len() <= groups@[r as int]@.len()
            &&& forall|j: int| 0 <= j < r ==> groups@[j]@.len() < groups@[r as int]@.len()
        },
{
    let mut max_index: usize = 0;
    let mut idx: usize = 0;
    while idx < groups.len()
        invariant
            0 <= idx <= groups@.len(),
            groups@.len() == 0 ==> max_index == 0,
            groups@.len() > 0 ==> max_index < groups@.len(),
            max_index <= idx,
            idx > 0 ==> max_index < idx,
            forall|j: int| 0 <= j < idx ==> groups@[j]@.len() <= groups@[max_index as int]@.len(),
            forall|j: int| 0 <= j < max_index ==> groups@[j]@.len() < groups@[max_index as int]@.len(),
        decreases groups@.len() - idx,
    {
        if groups[idx].len() > groups[max_index].len() {
            max_index = idx;
        }
        idx = idx + 1;
    }
    max_index
}

/// Sorts files by `max_ts`, ascending.
pub fn sort_by_max_ts(files: Vec<FileKey>) -> (r: Vec<FileKey>)
    ensures
        sorted_by_max_ts(r@),
        r@.to_multiset() == files@.to_multiset(),
{
    let mut rest = files;
    let mut sorted: Vec<FileKey> = Vec::new();
    while rest.len() > 0
        invariant
            sorted_by_max_ts(sorted@),
            rest@.to_multiset().add(sorted@.to_multiset()) == files@.to_multiset(),
        decreases rest@.len(),
    {
        let ghost rest_before = rest@;
        let f = rest.pop().unwrap();
        assert(rest_before =~= rest@.push(f));
        let mut pos: usize = 0;
        while pos < sorted.len() && sorted[pos].meta.max_ts <= f.meta.max_ts
            invariant
                0 <= pos <= sorted@.len(),
                forall|k: int| 0 <= k < pos ==> #[trigger] sorted@[k].meta.max_ts <= f.meta.max_ts,
            decreases sorted@.len() - pos,
        {
            pos = pos + 1;
        }
        let ghost old_sorted = sorted@;
        sorted.insert(pos, f);
        assert(sorted_by_max_ts(sorted@)) by {
            assert forall|i: int, j: int| 0 <= i <= j < sorted@.len() implies #[trigger] sorted@[i].meta.max_ts
                <= #[trigger] sorted@[j].meta.max_ts by {
                if i < pos && j > pos {
                    assert(sorted@[j] == old_sorted[j - 1]);
                } else if i == pos && j > pos {
                    assert(sorted@[j] == old_sorted[j - 1]);
                    assert(pos < old_sorted.len());
                    assert(old_sorted[pos as int].meta.max_ts > f.meta.max_ts);
                    assert(old_sorted[pos as int].meta.max_ts <= old_sorted[j - 1].meta.max_ts);
                }
            }
        }
        assert(rest@.push(f).to_multiset() == rest@.to_multiset().insert(f));
        assert(sorted@ == old_sorted.insert(pos as int, f));
        assert(old_sorted.insert(pos as int, f).to_multiset() == old_sorted.to_multiset().insert(f));
        let ghost a = rest@.to_multiset();
        let ghost b = old_sorted.to_multiset();
        assert(a.insert(f).add(b) =~= a.add(b.insert(f)));
    }
    assert(rest@.to_multiset() =~= Multiset::empty());
    assert(sorted@.to_multiset() =~= Multiset::<FileKey>::empty().add(sorted@.to_multiset()));
    sorted
}

proof fn lemma_wf_by_multiset(s: Seq<FileKey>, t: Seq<FileKey>)
    requires
        files_wf(s),
        t.to_multiset() == s.to_multiset(),
    ensures
        files_wf(t),
{
    assert forall|i: int| 0 <= i < t.len() implies file_wf(#[trigger] t[i]) by {
        assert(t.contains(t[i]));
        assert(t.to_multiset().count(t[i]) > 0);
        assert(s.contains(t[i]));
    }
}

proof fn lemma_parity_split_ok(s: Seq<FileKey>)
    requires
        non_overlapping(s),
        files_wf(s),
    ensures
        non_overlapping(evens(s)),
        files_wf(evens(s)),
        non_overlapping(odds(s)),
        files_wf(odds(s)),
{
    let e = evens(s);
    let o = odds(s);
    assert forall|i: int| 0 <= i < e.len() - 1 implies #[trigger] e[i].meta.max_ts < e[i + 1].meta.min_ts by {
        assert(s[2 * i].meta.max_ts < s[2 * i + 1].meta.min_ts);
        assert(file_wf(s[2 * i + 1]));
        assert(s[2 * i + 1].meta.max_ts < s[2 * i + 2].meta.min_ts);
    }
    assert forall|i: int| 0 <= i < o.len() - 1 implies #[trigger] o[i].meta.max_ts < o[i + 1].meta.min_ts by {
        assert(s[2 * i + 1].meta.max_ts < s[2 * i + 2].meta.min_ts);
        assert(file_wf(s[2 * i + 2]));
        assert(s[2 * i + 2].meta.max_ts < s[2 * i + 3].meta.min_ts);
    }
    assert forall|i: int| 0 <= i < e.len() implies file_wf(#[trigger] e[i]) by {
        assert(file_wf(s[2 * i]));
    }
    assert forall|i: int| 0 <= i < o.len() implies file_wf(#[trigger] o[i]) by {
        assert(file_wf(s[2 * i + 1]));
    }
}

/// Splits a group into the files at odd positions and those at even positions.
pub fn split_by_parity(group: Vec<FileKey>) -> (r: (Vec<FileKey>, Vec<FileKey>))
    ensures
        r.0@ == odds(group@),
        r.1@ == evens(group@),
        r.0@.to_multiset().add(r.1@.to_multiset()) == group@.to_multiset(),
{
    let ghost orig = group@;
    let mut rest = group;
    let n = rest.len();
    let mut odd_group: Vec<FileKey> = Vec::new();
    let mut even_group: Vec<FileKey> = Vec::new();
    let mut idx: usize = 0;
    while rest.len() > 0
        invariant
            idx + rest@.len() == orig.len(),
            orig.len() == n,
            rest@ == orig.subrange(idx as int, orig.len() as int),
            odd_group@ == odds(orig.take(idx as int)),
            even_group@ == evens(orig.take(idx as int)),
            odd_group@.to_multiset().add(even_group@.to_multiset()).add(rest@.to_multiset())
                == orig.to_multiset(),
        decreases rest@.len(),
    {
        let ghost rest_before = rest@;
        let ghost om = odd_group@.to_multiset();
        let ghost em = even_group@.to_multiset();
        let f = rest.remove(0);
        assert(rest_before.remove(0) == rest@);
        assert(rest_before.to_multiset().count(f) > 0) by {
            assert(rest_before.contains(f));
        }
        let ghost rm = rest@.to_multiset();
        assert(rest_before.to_multiset() =~= rm.insert(f));
        assert(f == orig[idx as int]);
        if idx % 2 == 0 {
            even_group.push(f);
            assert(even_group@ =~= evens(orig.take(idx + 1)));
            assert(odd_group@ =~= odds(orig.take(idx + 1)));
            assert(om.add(em.insert(f)).add(rm) =~= om.add(em).add(rm.insert(f)));
        } else {
            odd_group.push(f);
            assert(even_group@ =~= evens(orig.take(idx + 1)));
            assert(odd_group@ =~= odds(orig.take(idx + 1)));
            assert(om.insert(f).add(em).add(rm) =~= om.add(em).add(rm.insert(f)));
        }
        idx = idx + 1;
    }
    assert(orig.take(idx as int) =~= orig);
    assert(odd_group@.to_multiset().add(even_group@.to_multiset()) =~= odd_group@.to_multiset().add(
        even_group@.to_multiset(),
    ).add(rest@.to_multiset()));
    (odd_group, even_group)
}

/// `i` is the first of the largest groups.
pub open spec fn is_first_max(gs: Seq<Seq<FileKey>>, i: int) -> bool {
    &&& 0 <= i < gs.len()
    &&& forall|j: int| 0 <= j < gs.len() ==> (#[trigger] gs[j]).len() <= gs[i].len()
    &&& forall|j: int| 0 <= j < i ==> (#[trigger] gs[j]).len() < gs[i].len()
}

/// The position of the first of the largest groups.
pub open spec fn first_max(gs: Seq<Seq<FileKey>>) -> int {
    choose|i: int| is_first_max(gs, i)
}

proof fn lemma_first_max(gs: Seq<Seq<FileKey>>, r: int)
    requires
        is_first_max(gs, r),
    ensures
        first_max(gs) == r,
{
    let i = first_max(gs);
    assert(is_first_max(gs, i));
    if i < r {
        assert(gs[i].len() < gs[r].len());
        assert(gs[r].len() <= gs[i].len());
    } else if i > r {
        assert(gs[r].len() < gs[i].len());
        assert(gs[i].len() <= gs[r].len());
    }
}

/// The groups after repartitioning: while there are fewer than `p` groups, the first
/// largest group is taken out; if it has one file it goes back at the end and the
/// process stops, otherwise its files at odd positions and those at even positions are
/// appended as two groups. `fuel` bounds the number of splits.
pub open spec fn repartitioned(gs: Seq<Seq<FileKey>>, p: int, fuel: nat) -> Seq<Seq<FileKey>>
    decreases fuel,
{
    if gs.len() == 0 || gs.len() >= p {
        gs
    } else {
        let i = first_max(gs);
        let g = gs[i];
        let rest = gs.remove(i);
        if g.len() <= 1 {
            rest.push(g)
        } else if fuel == 0 {
            gs
        } else {
            repartitioned(rest.push(odds(g)).push(evens(g)), p, (fuel - 1) as nat)
        }
    }
}

/// Splits the largest group by position parity until there are `partition_num` groups
/// or no group has more than one file.
pub fn repartition_sorted_groups(groups: Vec<Vec<FileKey>>, partition_num: usize) -> (r: Vec<
    Vec<FileKey>,
>)
    requires
        groups_ok(groups@),
    ensures
        groups_ok(r@),
        groups_files(r@) == groups_files(groups@),
        groups@.len() == 0 ==> r@.len() == 0,
        groups@.len() >= partition_num ==> r@ == groups@,
        0 < groups@.len() < partition_num ==> r@.len() == vstd::math::min(
            partition_num as int,
            groups_files(groups@).len() as int,
        ),
        views(r@) == repartitioned(
            views(groups@),
            partition_num as int,
            (groups_files(groups@).len() - groups@.len()) as nat,
        ),
{
    let mut groups = groups;
    if groups.len() == 0 {
        return groups;
    }
    let ghost all = groups_files(groups@);
    let ghost start_len = groups@.len();
    let ghost start = groups@;
    proof {
        lemma_groups_count(groups@);
    }
    let ghost target = repartitioned(
        views(start),
        partition_num as int,
        (all.len() - start_len) as nat,
    );
    let mut done = false;
    while !done && groups.len() < partition_num
        invariant
            groups_ok(groups@),
            groups_files(groups@) == all,
            0 < start_len <= groups@.len() <= all.len(),
            start_len >= partition_num ==> groups@ == start,
            start.len() == start_len,
            start_len < partition_num ==> groups@.len() <= partition_num,
            done ==> groups@.len() == all.len() && groups@.len() < partition_num,
            !done ==> repartitioned(
                views(groups@),
                partition_num as int,
                (all.len() - groups@.len()) as nat,
            ) == target,
            done ==> views(groups@) == target,
        decreases all.len() - groups@.len() + if done {
            0int
        } else {
            1int
        },
    {
        let max_index = find_max_group_index(groups.as_slice());
        let ghost before = groups@;
        let max_group = groups.remove(max_index);
        let ghost vb = views(before);
        proof {
            lemma_groups_files_remove(before, max_index as int);
            assert(is_first_max(vb, max_index as int)) by {
                assert forall|j: int| 0 <= j < vb.len() implies (#[trigger] vb[j]).len() <= vb[max_index as int].len() by {
                    assert(vb[j] == before[j]@);
                }
                assert forall|j: int| 0 <= j < max_index implies (#[trigger] vb[j]).len() < vb[max_index as int].len() by {
                    assert(vb[j] == before[j]@);
                }
            }
            lemma_first_max(vb, max_index as int);
            assert(views(groups@) =~= vb.remove(max_index as int));
            assert(vb[max_index as int] == max_group@);
        }
        if max_group.len() <= 1 {
            let ghost removed = groups@;
            groups.push(max_group);
            proof {
                lemma_groups_files_push(removed, max_group);
                assert forall|i: int| 0 <= i < groups@.len() implies #[trigger] groups@[i]@.len()
                    == 1 by {
                    if i < max_index {
                        assert(groups@[i] == before[i]);
                    } else if i < groups@.len() - 1 {
                        assert(groups@[i] == before[i + 1]);
                    }
                }
                lemma_groups_count(groups@);
                assert(views(groups@) =~= vb.remove(max_index as int).push(max_group@));
            }
            done = true;
        } else {
            proof {
                lemma_parity_split_ok(max_group@);
            }
            let (odd_group, even_group) = split_by_parity(max_group);
            let ghost removed = groups@;
            if !odd_group.is_empty() {
                groups.push(odd_group);
                proof {
                    lemma_groups_files_push(removed, odd_group);
                }
            }
            let ghost with_odd = groups@;
            if !even_group.is_empty() {
                groups.push(even_group);
                proof {
                    lemma_groups_files_push(with_odd, even_group);
                }
            }
            proof {
                let a = groups_files(removed);
                let om = odd_group@.to_multiset();
                let em = even_group@.to_multiset();
                assert(groups_files(groups@) =~= a.add(om).add(em));
                lemma_groups_count(groups@);
                assert(views(groups@) =~= vb.remove(max_index as int).push(odds(max_group@)).push(
                    evens(max_group@),
                ));
            }
        }
    }
    groups
}

/// Index of the first group whose last file ends before `min_ts`.
fn find_group_before(groups: &Vec<Vec<FileKey>>, min_ts: i64) -> (r: Option<usize>)
    requires
        groups_ok(groups@),
    ensures
        match r {
            Some(j) => j < groups@.len() && groups@[j as int]@.last().meta.max_ts < min_ts
                && forall|k: int| 0 <= k < j ==> #[trigger] groups@[k]@.last().meta.max_ts >= min_ts,
            None => forall|k: int| 0 <= k < groups@.len() ==> #[trigger] groups@[k]@.last().meta.max_ts
                >= min_ts,
        },
{
    let mut j: usize = 0;
    while j < groups.len()
        invariant
            j <= groups@.len(),
            groups_ok(groups@),
            forall|k: int| 0 <= k < j ==> #[trigger] groups@[k]@.last().meta.max_ts >= min_ts,
        decreases groups@.len() - j,
    {
        let group = &groups[j];
        assert(group_ok(groups@[j as int]@));
        if group[group.len() - 1].meta.max_ts < min_ts {
            return Some(j);
        }
        j = j + 1;
    }
    None
}

/// The files of each group.
pub open spec fn views(gs: Seq<Vec<FileKey>>) -> Seq<Seq<FileKey>> {
    gs.map_values(|g: Vec<FileKey>| g@)
}

/// Index of the first group, from `k` on, whose last file ends before `f` starts;
/// `gs.len()` when there is none.
pub open spec fn first_fit(gs: Seq<Seq<FileKey>>, f: FileKey, k: int) -> int
    decreases gs.len() - k,
{
    if k >= gs.len() || k < 0 {
        gs.len() as int
    } else if gs[k].last().meta.max_ts < f.meta.min_ts {
        k
    } else {
        first_fit(gs, f, k + 1)
    }
}

/// Adds `f` to the first group that it can follow, or to a new group at the end.
pub open spec fn place(gs: Seq<Seq<FileKey>>, f: FileKey) -> Seq<Seq<FileKey>> {
    let j = first_fit(gs, f, 0);
    if j < gs.len() {
        gs.update(j, gs[j].push(f))
    } else {
        gs.push(seq![f])
    }
}

/// The groups that placing the files one after another builds.
pub open spec fn greedy(s: Seq<FileKey>) -> Seq<Seq<FileKey>>
    decreases s.len(),
{
    if s.len() == 0 {
        Seq::empty()
    } else {
        place(greedy(s.drop_last()), s.last())
    }
}

proof fn lemma_first_fit(gs: Seq<Seq<FileKey>>, f: FileKey, k: int, j: int)
    requires
        0 <= k <= j <= gs.len(),
        forall|m: int| k <= m < j ==> #[trigger] gs[m].last().meta.max_ts >= f.meta.min_ts,
        j < gs.len() ==> gs[j].last().meta.max_ts < f.meta.min_ts,
    ensures
        first_fit(gs, f, k) == j,
    decreases j - k,
{
    if k < j {
        lemma_first_fit(gs, f, k + 1, j);
    }
}

/// Places files, in the order given, into groups of non-overlapping files: each file
/// goes to the first group whose last file ends before it starts, else to a new group.
pub fn group_disjoint(files: Vec<FileKey>) -> (r: Vec<Vec<FileKey>>)
    requires
        files_wf(files@),
    ensures
        views(r@) == greedy(files@),
        groups_ok(r@),
        groups_files(r@) == files@.to_multiset(),
        files@.len() > 0 ==> r@.len() > 0,
        r@.len() <= files@.len(),
{
    let ghost all = files@.to_multiset();
    let ghost orig = files@;
    let mut rest = files;
    let n = rest.len();
    let mut i: usize = 0;
    let mut groups: Vec<Vec<FileKey>> = Vec::new();
    proof {
        assert(views(groups@) =~= greedy(orig.take(0)));
    }
    while rest.len() > 0
        invariant
            i + rest@.len() == orig.len(),
            orig.len() == n,
            rest@ == orig.subrange(i as int, orig.len() as int),
            views(groups@) == greedy(orig.take(i as int)),
            groups_ok(groups@),
            files_wf(rest@),
            groups_files(groups@).add(rest@.to_multiset()) == all,
            i > 0 ==> groups@.len() > 0,
        decreases rest@.len(),
    {
        let ghost rest_before = rest@;
        let ghost before = groups@;
        let f = rest.remove(0);
        assert(f == orig[i as int]);
        assert(orig.take(i + 1).drop_last() =~= orig.take(i as int));
        assert(orig.take(i + 1).last() == f);
        assert(rest_before.remove(0) == rest@);
        assert(rest_before.to_multiset().count(f) > 0) by {
            assert(rest_before.contains(f));
        }
        let ghost rm = rest@.to_multiset();
        assert(rest_before.to_multiset() =~= rm.insert(f));
        assert(file_wf(rest_before[0]));
        assert(files_wf(rest@)) by {
            assert forall|k: int| 0 <= k < rest@.len() implies file_wf(#[trigger] rest@[k]) by {
                assert(rest@[k] == rest_before[k + 1]);
            }
        }
        let ghost single = seq![f];
        match find_group_before(&groups, f.meta.min_ts) {
            Some(j) => {
                let mut group = groups.remove(j);
                let ghost removed = groups@;
                let ghost old_group = group@;
                group.push(f);
                let ghost new_group = group;
                groups.insert(j, group);
                proof {
                    lemma_first_fit(views(before), f, 0, j as int);
                    assert(views(groups@) =~= place(views(before), f)) by {
                        assert(groups@ =~= before.update(j as int, new_group));
                    }
                    assert(group_ok(new_group@)) by {
                        assert(group_ok(old_group));
                        assert(new_group@.last() == f);
                        assert forall|k: int| 0 <= k < new_group@.len() - 1 implies #[trigger] new_group@[k].meta.max_ts
                            < new_group@[k + 1].meta.min_ts by {
                            if k < new_group@.len() - 2 {
                                assert(new_group@[k] == old_group[k]);
                                assert(new_group@[k + 1] == old_group[k + 1]);
                            }
                        }
                        assert forall|k: int| 0 <= k < new_group@.len() implies file_wf(#[trigger] new_group@[k]) by {
                            if k < new_group@.len() - 1 {
                                assert(new_group@[k] == old_group[k]);
                            }
                        }
                    }
                    assert forall|k: int| 0 <= k < groups@.len() implies group_ok(#[trigger] groups@[k]@) by {
                        if k != j {
                            assert(groups@[k] == before[k]);
                        }
                    }
                    lemma_groups_files_remove(before, j as int);
                    lemma_groups_files_insert(removed, j as int, new_group);
                    assert(new_group@.to_multiset() == old_group.to_multiset().insert(f));
                    let a = groups_files(removed);
                    let om = old_group.to_multiset();
                    assert(a.add(om.insert(f)).add(rm) =~= a.add(om).add(rm.insert(f)));
                }
            },
            None => {
                let group = vec![f];
                groups.push(group);
                proof {
                    lemma_first_fit(views(before), f, 0, before.len() as int);
                    assert(views(groups@) =~= place(views(before), f)) by {
                        assert(group@ == single);
                    }
                    assert(group@ == single);
                    assert(group_ok(group@));
                    assert forall|k: int| 0 <= k < groups@.len() implies group_ok(#[trigger] groups@[k]@) by {
                        if k < before.len() {
                            assert(groups@[k] == before[k]);
                        }
                    }
                    lemma_groups_files_push(before, group);
                    assert(single.to_multiset() =~= Multiset::empty().insert(f)) by {
                        assert(single == Seq::<FileKey>::empty().push(f));
                    }
                    let a = groups_files(before);
                    assert(a.add(Multiset::empty().insert(f)).add(rm) =~= a.add(rm.insert(f)));
                }
            },
        }
        i = i + 1;
    }
    proof {
        assert(orig.take(i as int) =~= orig);
        assert(groups_files(groups@) =~= groups_files(groups@).add(rest@.to_multiset()));
        lemma_groups_count(groups@);
        assert(orig.len() == all.len());
    }
    groups
}

/// Groups files so that no two files of a group overlap in time, then splits groups
/// until there are at least `partition_num` of them where the files allow it.
pub fn group_files_by_time_range(files: Vec<FileKey>, partition_num: usize) -> (r: Vec<
    Vec<FileKey>,
>)
    requires
        files_wf(files@),
    ensures
        groups_ok(r@),
        groups_files(r@) == files@.to_multiset(),
        vstd::math::min(partition_num as int, files@.len() as int) <= r@.len() <= files@.len(),
        exists|s: Seq<FileKey>|
            {
                &&& sorted_by_max_ts(s)
                &&& s.to_multiset() == files@.to_multiset()
                &&& #[trigger] greedy(s).len() >= partition_num ==> views(r@) == greedy(s)
                &&& greedy(s).len() < partition_num ==> views(r@) == repartitioned(
                    greedy(s),
                    partition_num as int,
                    (files@.len() - greedy(s).len()) as nat,
                )
                &&& greedy(s).len() < partition_num ==> r@.len() == vstd::math::min(
                    partition_num as int,
                    files@.len() as int,
                )
            },
{
    let sorted = sort_by_max_ts(files);
    proof {
        lemma_wf_by_multiset(files@, sorted@);
        assert(sorted@.len() == sorted@.to_multiset().len());
        assert(files@.len() == files@.to_multiset().len());
    }
    let ghost s = sorted@;
    let groups = group_disjoint(sorted);
    proof {
        lemma_groups_count(groups@);
    }
    let ghost g = groups@;
    let r = if groups.len() >= partition_num {
        groups
    } else {
        proof {
            assert(views(groups@).len() == groups@.len());
            assert(groups_files(groups@).len() == files@.len());
        }
        repartition_sorted_groups(groups, partition_num)
    };
    proof {
        assert(views(g) == greedy(s));
        assert(views(g).len() == g.len());
        assert(groups_files(g).len() == files@.len());
        if g.len() < partition_num && g.len() == 0 {
            assert(files@.len() == 0);
        }
        assert(sorted_by_max_ts(s));
        assert(s.to_multiset() == files@.to_multiset());
    }
    r
}

} // verus!
