//! Keeping the folder of fetched lyrics under its size limit: files that
//! share a name (`song.json`, `song.lrc`, `song.yrc`) form a group, and the
//! least recently changed groups go first.
use vstd::prelude::*;

verus! {

/// A file of the cache folder: its name without extension, when it was
/// last modified (seconds since the epoch) and its size in bytes.
#[derive(Debug, Clone)]
pub struct CacheFile {
    pub stem: String,
    pub modified_unix_secs: u64,
    pub size: u64,
}

/// The files of the cache folder that share a name: the oldest change
/// among them, their total size (saturating) and their indices among the
/// files.
#[derive(Debug, Clone)]
pub struct CacheFileGroup {
    pub stem: String,
    pub modified_unix_secs: u64,
    pub total_size: u64,
    pub files: Vec<usize>,
}

/// The value of a `CacheFileGroup`.
pub struct GroupModel {
    pub stem: Seq<char>,
    pub modified_unix_secs: u64,
    pub total_size: u64,
    pub files: Seq<usize>,
}

impl View for CacheFileGroup {
    type V = GroupModel;

    open spec fn view(&self) -> GroupModel {
        GroupModel {
            stem: self.stem@,
            modified_unix_secs: self.modified_unix_secs,
            total_size: self.total_size,
            files: self.files@,
        }
    }
}

/// The values of a sequence of groups.
pub open spec fn groups_model(v: Seq<CacheFileGroup>) -> Seq<GroupModel> {
    v.map_values(|g: CacheFileGroup| g@)
}

/// The index of the group with the given name, if there is one.
pub open spec fn group_index(gs: Seq<GroupModel>, stem: Seq<char>) -> Option<int>
    decreases gs.len(),
{
    if gs.len() == 0 {
        None
    } else {
        match group_index(gs.drop_last(), stem) {
            Some(i) => Some(i),
            None => if gs.last().stem == stem {
                Some(gs.len() - 1)
            } else {
                None
            },
        }
    }
}

/// The groups after file `i` is added: to the group of its name (which
/// then keeps the older change and adds the size, saturating), or as a new
/// group at the end.
pub open spec fn add_file(gs: Seq<GroupModel>, f: CacheFile, i: int) -> Seq<GroupModel> {
    match group_index(gs, f.stem@) {
        Some(k) => gs.update(
            k,
            GroupModel {
                stem: gs[k].stem,
                modified_unix_secs: if f.modified_unix_secs < gs[k].modified_unix_secs {
                    f.modified_unix_secs
                } else {
                    gs[k].modified_unix_secs
                },
                total_size: gs[k].total_size.saturating_add(f.size),
                files: gs[k].files.push(i as usize),
            },
        ),
        None => gs.push(
            GroupModel {
                stem: f.stem@,
                modified_unix_secs: f.modified_unix_secs,
                total_size: f.size,
                files: seq![i as usize],
            },
        ),
    }
}

/// The groups of the files, in the order their names first occur.
pub open spec fn group_files(fs: Seq<CacheFile>) -> Seq<GroupModel>
    decreases fs.len(),
{
    if fs.len() == 0 {
        Seq::empty()
    } else {
        add_file(group_files(fs.drop_last()), fs.last(), fs.len() - 1)
    }
}

proof fn lemma_group_index(gs: Seq<GroupModel>, stem: Seq<char>)
    ensures
        match group_index(gs, stem) {
            Some(k) => 0 <= k < gs.len() && gs[k].stem == stem && forall|j: int|
                0 <= j < k ==> gs[j].stem != stem,
            None => forall|j: int| 0 <= j < gs.len() ==> gs[j].stem != stem,
        },
    decreases gs.len(),
{
    if gs.len() > 0 {
        let d = gs.drop_last();
        lemma_group_index(d, stem);
        assert forall|j: int| 0 <= j < d.len() implies d[j] == gs[j] by {}
    }
}

/// Groups the files of the cache folder by name (see `group_files`).
pub fn cache_file_groups(files: &[CacheFile]) -> (r: Vec<CacheFileGroup>)
    ensures
        groups_model(r@) == group_files(files@),
{
    let mut groups: Vec<CacheFileGroup> = Vec::new();
    let mut i: usize = 0;
    assert(files@.take(0) =~= Seq::<CacheFile>::empty());
    while i < files.len()
        invariant
            i <= files@.len(),
            groups_model(groups@) == group_files(files@.take(i as int)),
        decreases files@.len() - i,
    {
        let f = &files[i];
        let ghost gs = groups_model(groups@);
        assert(files@.take(i + 1).drop_last() =~= files@.take(i as int));
        assert(files@.take(i + 1).last() == *f);
        let mut k: usize = 0;
        while k < groups.len() && !(groups[k].stem == f.stem)
            invariant
                k <= groups@.len(),
                gs == groups_model(groups@),
                forall|j: int| 0 <= j < k ==> gs[j].stem != f.stem@,
            decreases groups@.len() - k,
        {
            k = k + 1;
        }
        proof {
            lemma_group_index(gs, f.stem@);
        }
        if k < groups.len() {
            assert(gs[k as int].stem == f.stem@);
            assert(group_index(gs, f.stem@) == Some(k as int));
            let mut g = groups.remove(k);
            if f.modified_unix_secs < g.modified_unix_secs {
                g.modified_unix_secs = f.modified_unix_secs;
            }
            g.total_size = g.total_size.saturating_add(f.size);
            g.files.push(i);
            groups.insert(k, g);
            assert(groups_model(groups@) =~= add_file(gs, *f, i as int));
        } else {
            assert(group_index(gs, f.stem@) is None);
            let g = CacheFileGroup {
                stem: f.stem.clone(),
                modified_unix_secs: f.modified_unix_secs,
                total_size: f.size,
                files: vec![i],
            };
            assert(g@.files =~= seq![i]);
            groups.push(g);
            assert(groups_model(groups@) =~= add_file(gs, *f, i as int));
        }
        i = i + 1;
    }
    assert(files@.take(i as int) =~= files@);
    groups
}

// ---------------------------------------------------------------- eviction

/// Where a group changed at `t` goes among `(time, index)` pairs so that it
/// follows every pair that is no newer (counted from the back).
pub open spec fn age_insert_index(s: Seq<(u64, usize)>, t: u64) -> int
    decreases s.len(),
{
    if s.len() > 0 && s.last().0 > t {
        age_insert_index(s.drop_last(), t)
    } else {
        s.len() as int
    }
}

/// The stable sort of `(time, index)` pairs by time.
pub open spec fn sort_by_age(s: Seq<(u64, usize)>) -> Seq<(u64, usize)>
    decreases s.len(),
{
    if s.len() == 0 {
        s
    } else {
        let sorted = sort_by_age(s.drop_last());
        sorted.insert(age_insert_index(sorted, s.last().0), s.last())
    }
}

/// The `(time, index)` pairs of the groups, in their order.
pub open spec fn ages(gs: Seq<GroupModel>) -> Seq<(u64, usize)> {
    Seq::new(gs.len(), |i: int| (gs[i].modified_unix_secs, i as usize))
}

/// The sum of the sizes of the groups.
pub open spec fn size_sum(gs: Seq<GroupModel>) -> int
    decreases gs.len(),
{
    if gs.len() == 0 {
        0
    } else {
        size_sum(gs.drop_last()) + gs.last().total_size
    }
}

/// The groups to delete, walking `order` oldest first: while the total
/// still exceeds the limit, the next group goes and its size comes off.
pub open spec fn evict_walk(order: Seq<(u64, usize)>, gs: Seq<GroupModel>, total: u64, limit: u64) -> Seq<usize>
    decreases order.len(),
{
    if order.len() == 0 || total <= limit {
        Seq::empty()
    } else {
        seq![order[0].1] + evict_walk(
            order.drop_first(),
            gs,
            total.saturating_sub(gs[order[0].1 as int].total_size),
            limit,
        )
    }
}

/// The groups that keeping the cache within `limit` bytes deletes: none
/// when there is no limit (0) or the cache is within it; else the least
/// recently changed groups (ties in their order) until it is.
pub open spec fn groups_to_evict_spec(gs: Seq<GroupModel>, limit: u64) -> Seq<usize> {
    if limit == 0 || size_sum(gs) <= limit {
        Seq::empty()
    } else {
        evict_walk(sort_by_age(ages(gs)), gs, size_sum(gs) as u64, limit)
    }
}

fn insert_by_age(v: &mut Vec<(u64, usize)>, p: (u64, usize))
    ensures
        final(v)@ == old(v)@.insert(age_insert_index(old(v)@, p.0), p),
{
    let mut j: usize = v.len();
    assert(v@.take(j as int) =~= v@);
    while j > 0 && v[j - 1].0 > p.0
        invariant
            j <= v@.len(),
            v@ == old(v)@,
            age_insert_index(v@, p.0) == age_insert_index(v@.take(j as int), p.0),
        decreases j,
    {
        assert(v@.take(j as int).drop_last() =~= v@.take(j - 1));
        j = j - 1;
    }
    proof {
        if j > 0 {
            assert(v@.take(j as int).last() == v@[j - 1]);
        }
    }
    v.insert(j, p);
}

/// Chooses which groups (by index) to delete to keep the cache folder
/// within `limit_bytes` (see `groups_to_evict_spec`), in deletion order.
pub fn groups_to_evict(groups: &[CacheFileGroup], limit_bytes: u64) -> (r: Vec<usize>)
    requires
        size_sum(groups_model(groups@)) <= u64::MAX,
    ensures
        r@ == groups_to_evict_spec(groups_model(groups@), limit_bytes),
{
    let ghost gs = groups_model(groups@);
    if limit_bytes == 0 {
        return Vec::new();
    }
    let n = groups.len();
    let mut total: u64 = 0;
    let mut i: usize = 0;
    assert(gs.take(0) =~= Seq::<GroupModel>::empty());
    while i < n
        invariant
            n == gs.len(),
            gs == groups_model(groups@),
            size_sum(gs) <= u64::MAX,
            i <= n,
            total as int == size_sum(gs.take(i as int)),
        decreases n - i,
    {
        proof {
            assert(gs.take(i + 1).drop_last() =~= gs.take(i as int));
            lemma_size_sum_prefix(gs, i + 1);
        }
        total = total + groups[i].total_size;
        i = i + 1;
    }
    assert(gs.take(n as int) =~= gs);
    if total <= limit_bytes {
        return Vec::new();
    }
    let mut order: Vec<(u64, usize)> = Vec::new();
    let mut k: usize = 0;
    let ghost all_ages = ages(gs);
    assert(all_ages.take(0) =~= Seq::<(u64, usize)>::empty());
    while k < n
        invariant
            n == gs.len(),
            gs == groups_model(groups@),
            all_ages == ages(gs),
            k <= n,
            order@ == sort_by_age(all_ages.take(k as int)),
        decreases n - k,
    {
        assert(all_ages.take(k + 1).drop_last() =~= all_ages.take(k as int));
        assert(all_ages.take(k + 1).last() == (groups[k as int].modified_unix_secs, k));
        insert_by_age(&mut order, (groups[k].modified_unix_secs, k));
        k = k + 1;
    }
    assert(all_ages.take(n as int) =~= all_ages);
    proof {
        lemma_sort_by_age_indices(all_ages, n as int);
    }
    let mut evicted: Vec<usize> = Vec::new();
    let mut remaining = total;
    let mut m: usize = 0;
    let ghost sorted = order@;
    assert(sorted.skip(0) =~= sorted);
    while m < order.len() && remaining > limit_bytes
        invariant
            n == gs.len(),
            gs == groups_model(groups@),
            sorted == order@,
            forall|j: int| 0 <= j < sorted.len() ==> #[trigger] sorted[j].1 < n,
            m <= sorted.len(),
            evict_walk(sorted, gs, total, limit_bytes) == evicted@ + evict_walk(
                sorted.skip(m as int),
                gs,
                remaining,
                limit_bytes,
            ),
        decreases sorted.len() - m,
    {
        let g = order[m].1;
        assert(sorted.skip(m as int)[0] == sorted[m as int]);
        assert(sorted.skip(m as int).drop_first() =~= sorted.skip(m + 1));
        let ghost before = evicted@;
        evicted.push(g);
        assert(before + (seq![g] + evict_walk(sorted.skip(m + 1), gs, remaining.saturating_sub(groups[g as int].total_size), limit_bytes))
            =~= evicted@ + evict_walk(sorted.skip(m + 1), gs, remaining.saturating_sub(groups[g as int].total_size), limit_bytes));
        remaining = remaining.saturating_sub(groups[g].total_size);
        m = m + 1;
    }
    assert(evict_walk(sorted.skip(m as int), gs, remaining, limit_bytes) =~= Seq::<usize>::empty());
    assert(evicted@ + Seq::<usize>::empty() =~= evicted@);
    evicted
}

proof fn lemma_size_sum_prefix(gs: Seq<GroupModel>, k: int)
    requires
        0 <= k <= gs.len(),
    ensures
        0 <= size_sum(gs.take(k)) <= size_sum(gs),
    decreases gs.len(),
{
    if gs.len() > 0 {
        if k == gs.len() {
            assert(gs.take(k) =~= gs);
            lemma_size_sum_prefix(gs.drop_last(), k - 1);
            assert(gs.drop_last().take(k - 1) =~= gs.drop_last());
        } else {
            lemma_size_sum_prefix(gs.drop_last(), k);
            assert(gs.drop_last().take(k) =~= gs.take(k));
        }
    } else {
        assert(gs.take(k) =~= gs);
    }
}

proof fn lemma_sort_by_age_indices(s: Seq<(u64, usize)>, n: int)
    requires
        forall|j: int| 0 <= j < s.len() ==> #[trigger] s[j].1 < n,
    ensures
        sort_by_age(s).len() == s.len(),
        forall|j: int| 0 <= j < sort_by_age(s).len() ==> #[trigger] sort_by_age(s)[j].1 < n,
    decreases s.len(),
{
    if s.len() > 0 {
        let d = s.drop_last();
        assert forall|j: int| 0 <= j < d.len() implies #[trigger] d[j].1 < n by {
            assert(d[j] == s[j]);
        }
        lemma_sort_by_age_indices(d, n);
        let sorted = sort_by_age(d);
        lemma_age_insert_index(sorted, s.last().0);
        let k = age_insert_index(sorted, s.last().0);
        let r = sorted.insert(k, s.last());
        assert forall|j: int| 0 <= j < r.len() implies #[trigger] r[j].1 < n by {
            if j < k {
                assert(r[j] == sorted[j]);
            } else if j > k {
                assert(r[j] == sorted[j - 1]);
            }
        }
    }
}

proof fn lemma_age_insert_index(s: Seq<(u64, usize)>, t: u64)
    ensures
        0 <= age_insert_index(s, t) <= s.len(),
    decreases s.len(),
{
    if s.len() > 0 && s.last().0 > t {
        lemma_age_insert_index(s.drop_last(), t);
    }
}

} // verus!

verus! {

/// The sizes of the groups that `order` lists, added up.
pub open spec fn listed_size(order: Seq<(u64, usize)>, gs: Seq<GroupModel>) -> int
    decreases order.len(),
{
    if order.len() == 0 {
        0
    } else {
        gs[order[0].1 as int].total_size + listed_size(order.drop_first(), gs)
    }
}

proof fn lemma_listed_size_concat(a: Seq<(u64, usize)>, b: Seq<(u64, usize)>, gs: Seq<GroupModel>)
    ensures
        listed_size(a + b, gs) == listed_size(a, gs) + listed_size(b, gs),
    decreases a.len(),
{
    if a.len() == 0 {
        assert(a + b =~= b);
    } else {
        assert((a + b).drop_first() =~= a.drop_first() + b);
        lemma_listed_size_concat(a.drop_first(), b, gs);
    }
}

proof fn lemma_listed_size_nonneg(order: Seq<(u64, usize)>, gs: Seq<GroupModel>)
    ensures
        listed_size(order, gs) >= 0,
    decreases order.len(),
{
    if order.len() > 0 {
        lemma_listed_size_nonneg(order.drop_first(), gs);
    }
}

/// Sizes looked up in a longer list of groups are the same for indices
/// that the shorter one has.
proof fn lemma_listed_size_prefix(order: Seq<(u64, usize)>, gs: Seq<GroupModel>, n: int)
    requires
        0 <= n <= gs.len(),
        forall|j: int| 0 <= j < order.len() ==> (#[trigger] order[j]).1 < n,
    ensures
        listed_size(order, gs) == listed_size(order, gs.take(n)),
    decreases order.len(),
{
    if order.len() > 0 {
        let d = order.drop_first();
        assert forall|j: int| 0 <= j < d.len() implies (#[trigger] d[j]).1 < n by {
            assert(d[j] == order[j + 1]);
        }
        lemma_listed_size_prefix(d, gs, n);
        assert(order[0].1 < n);
    }
}

/// Stable sorting by age keeps the same pairs.
proof fn lemma_sort_by_age_members(s: Seq<(u64, usize)>)
    ensures
        sort_by_age(s).len() == s.len(),
        forall|j: int| 0 <= j < sort_by_age(s).len() ==> s.contains(#[trigger] sort_by_age(s)[j]),
        forall|i: int| 0 <= i < s.len() ==> sort_by_age(s).contains(#[trigger] s[i]),
    decreases s.len(),
{
    if s.len() > 0 {
        let d = s.drop_last();
        let x = s.last();
        lemma_sort_by_age_members(d);
        let sd = sort_by_age(d);
        lemma_age_insert_index(sd, x.0);
        let k = age_insert_index(sd, x.0);
        let r = sort_by_age(s);
        assert(r == sd.insert(k, x));
        assert forall|j: int| 0 <= j < r.len() implies s.contains(#[trigger] r[j]) by {
            if j < k {
                assert(r[j] == sd[j]);
                let i = choose|i: int| 0 <= i < d.len() && d[i] == sd[j];
                assert(s[i] == d[i]);
            } else if j > k {
                assert(r[j] == sd[j - 1]);
                let i = choose|i: int| 0 <= i < d.len() && d[i] == sd[j - 1];
                assert(s[i] == d[i]);
            } else {
                assert(s[s.len() - 1] == x);
            }
        }
        assert forall|i: int| 0 <= i < s.len() implies r.contains(#[trigger] s[i]) by {
            if i < d.len() {
                assert(d[i] == s[i]);
                assert(sd.contains(d[i]));
                let j = choose|j: int| 0 <= j < sd.len() && sd[j] == d[i];
                if j < k {
                    assert(r[j] == sd[j]);
                } else {
                    assert(r[j + 1] == sd[j]);
                }
            } else {
                assert(r[k] == x);
            }
        }
    }
}

/// Stable sorting by age puts the pairs in order of age.
proof fn lemma_sort_by_age_ordered(s: Seq<(u64, usize)>)
    ensures
        forall|i: int, j: int|
            0 <= i <= j < sort_by_age(s).len() ==> (#[trigger] sort_by_age(s)[i]).0 <= (
            #[trigger] sort_by_age(s)[j]).0,
    decreases s.len(),
{
    if s.len() > 0 {
        let d = s.drop_last();
        let x = s.last();
        lemma_sort_by_age_ordered(d);
        let sd = sort_by_age(d);
        lemma_age_insert_index_sorted(sd, x.0);
        let k = age_insert_index(sd, x.0);
        let r = sort_by_age(s);
        assert(r == sd.insert(k, x));
        assert forall|i: int, j: int| 0 <= i <= j < r.len() implies (#[trigger] r[i]).0 <= (#[trigger] r[j]).0 by {
            if i < k && j > k {
                assert(r[i] == sd[i]);
                assert(r[j] == sd[j - 1]);
            } else if i < k && j == k {
                assert(r[i] == sd[i]);
            } else if i == k && j > k {
                assert(r[j] == sd[j - 1]);
            } else if i > k {
                assert(r[i] == sd[i - 1]);
                assert(r[j] == sd[j - 1]);
            } else if j < k {
                assert(r[i] == sd[i]);
                assert(r[j] == sd[j]);
            }
        }
    }
}

/// Stable sorting by age lists no pair twice when the input does not.
proof fn lemma_sort_by_age_distinct(s: Seq<(u64, usize)>)
    requires
        s.no_duplicates(),
    ensures
        sort_by_age(s).no_duplicates(),
    decreases s.len(),
{
    if s.len() > 0 {
        let d = s.drop_last();
        let x = s.last();
        assert(d.no_duplicates()) by {
            assert forall|i: int, j: int| 0 <= i < d.len() && 0 <= j < d.len() && i != j implies d[i] != d[j] by {
                assert(d[i] == s[i] && d[j] == s[j]);
            }
        }
        lemma_sort_by_age_distinct(d);
        lemma_sort_by_age_members(d);
        let sd = sort_by_age(d);
        lemma_age_insert_index(sd, x.0);
        let k = age_insert_index(sd, x.0);
        let r = sort_by_age(s);
        assert(r == sd.insert(k, x));
        assert(!sd.contains(x)) by {
            if sd.contains(x) {
                let j = choose|j: int| 0 <= j < sd.len() && sd[j] == x;
                assert(d.contains(sd[j]));
                let i = choose|i: int| 0 <= i < d.len() && d[i] == sd[j];
                assert(s[i] == x && s[s.len() - 1] == x);
            }
        }
        assert forall|i: int, j: int| 0 <= i < r.len() && 0 <= j < r.len() && i != j implies r[i] != r[j] by {
            if i != k && j != k {
                let a = if i < k { i } else { i - 1 };
                let b = if j < k { j } else { j - 1 };
                assert(r[i] == sd[a] && r[j] == sd[b]);
            } else if i == k {
                let b = if j < k { j } else { j - 1 };
                assert(r[j] == sd[b]);
            } else {
                let a = if i < k { i } else { i - 1 };
                assert(r[i] == sd[a]);
            }
        }
    }
}

proof fn lemma_age_insert_index_sorted(s: Seq<(u64, usize)>, t: u64)
    ensures
        0 <= age_insert_index(s, t) <= s.len(),
        (forall|i: int, j: int| 0 <= i <= j < s.len() ==> (#[trigger] s[i]).0 <= (#[trigger] s[j]).0)
            ==> forall|i: int| 0 <= i < s.len() ==> ((#[trigger] s[i]).0 <= t <==> i < age_insert_index(s, t)),
    decreases s.len(),
{
    if s.len() > 0 && s.last().0 > t {
        let d = s.drop_last();
        lemma_age_insert_index_sorted(d, t);
        assert forall|i: int| 0 <= i < d.len() implies d[i] == s[i] by {}
    }
}

/// The sizes of all groups, listed oldest first, add up to their total.
proof fn lemma_sorted_ages_size(gs: Seq<GroupModel>)
    requires
        gs.len() <= usize::MAX,
    ensures
        listed_size(sort_by_age(ages(gs)), gs) == size_sum(gs),
        forall|j: int| 0 <= j < sort_by_age(ages(gs)).len() ==> (#[trigger] sort_by_age(ages(gs))[j]).1 < gs.len(),
    decreases gs.len(),
{
    let s = ages(gs);
    lemma_sort_by_age_members(s);
    let r = sort_by_age(s);
    assert forall|j: int| 0 <= j < r.len() implies (#[trigger] r[j]).1 < gs.len() by {
        let i = choose|i: int| 0 <= i < s.len() && s[i] == r[j];
    }
    if gs.len() > 0 {
        let g = gs.drop_last();
        assert(ages(g) =~= s.drop_last());
        lemma_sorted_ages_size(g);
        let sd = sort_by_age(s.drop_last());
        let k = age_insert_index(sd, s.last().0);
        lemma_age_insert_index(sd, s.last().0);
        assert(r == sd.insert(k, s.last()));
        assert(r =~= sd.take(k) + seq![s.last()] + sd.skip(k));
        assert(sd =~= sd.take(k) + sd.skip(k));
        lemma_listed_size_concat(sd.take(k) + seq![s.last()], sd.skip(k), gs);
        lemma_listed_size_concat(sd.take(k), seq![s.last()], gs);
        lemma_listed_size_concat(sd.take(k), sd.skip(k), gs);
        assert(seq![s.last()].drop_first() =~= Seq::<(u64, usize)>::empty());
        assert(listed_size(Seq::<(u64, usize)>::empty(), gs) == 0);
        assert(s.last() == s[gs.len() - 1]);
        assert(s.last().1 as int == gs.len() - 1);
        assert(seq![s.last()][0] == s.last());
        assert(listed_size(seq![s.last()], gs) == gs[gs.len() - 1].total_size);
        assert forall|j: int| 0 <= j < sd.len() implies (#[trigger] sd[j]).1 < g.len() by {}
        lemma_listed_size_prefix(sd, gs, g.len() as int);
        assert(gs.take(g.len() as int) =~= g);
    }
}

proof fn lemma_evict_walk_prefix(order: Seq<(u64, usize)>, gs: Seq<GroupModel>, total: u64, limit: u64)
    requires
        total == listed_size(order, gs),
    ensures
        evict_walk(order, gs, total, limit).len() <= order.len(),
        forall|j: int| 0 <= j < evict_walk(order, gs, total, limit).len()
            ==> #[trigger] evict_walk(order, gs, total, limit)[j] == order[j].1,
        listed_size(order.skip(evict_walk(order, gs, total, limit).len() as int), gs) <= limit,
    decreases order.len(),
{
    if order.len() == 0 || total <= limit {
        assert(order.skip(0) =~= order);
    } else {
        let d = order.drop_first();
        lemma_listed_size_nonneg(d, gs);
        let size0 = gs[order[0].1 as int].total_size;
        let next = total.saturating_sub(size0);
        assert(next == listed_size(d, gs));
        lemma_evict_walk_prefix(d, gs, next, limit);
        let w = evict_walk(d, gs, next, limit);
        let all = evict_walk(order, gs, total, limit);
        assert(all == seq![order[0].1] + w);
        assert forall|j: int| 0 <= j < all.len() implies #[trigger] all[j] == order[j].1 by {
            if j > 0 {
                assert(all[j] == w[j - 1]);
                assert(d[j - 1] == order[j]);
            }
        }
        assert(order.skip(all.len() as int) =~= d.skip(w.len() as int));
    }
}

/// Group `i` is one of those `order` lists.
pub open spec fn lists_group(order: Seq<(u64, usize)>, i: int) -> bool {
    exists|j: int| 0 <= j < order.len() && (#[trigger] order[j]).1 == i
}

/// Keeping the cache within its limit deletes the oldest groups first and
/// stops as soon as it fits: `order` lists every group once, oldest first
/// (ties in their order); the groups deleted are the first ones of it; and
/// the groups after them, the ones kept, add up to at most the limit.
pub proof fn lemma_eviction_fits_limit(gs: Seq<GroupModel>, limit: u64)
    requires
        gs.len() <= usize::MAX,
        size_sum(gs) <= u64::MAX,
        limit > 0,
    ensures
        ({
            let order = sort_by_age(ages(gs));
            let evicted = groups_to_evict_spec(gs, limit);
            &&& order.len() == gs.len()
            &&& forall|i: int| 0 <= i < gs.len() ==> #[trigger] lists_group(order, i)
            &&& forall|i: int, j: int| 0 <= i < j < order.len() ==> (#[trigger] order[i]).1 != (#[trigger] order[j]).1
            &&& forall|i: int, j: int| 0 <= i <= j < order.len() ==> (#[trigger] order[i]).0 <= (#[trigger] order[j]).0
            &&& forall|j: int| 0 <= j < order.len() ==> (#[trigger] order[j]).0 == gs[order[j].1 as int].modified_unix_secs
            &&& evicted.len() <= order.len()
            &&& forall|j: int| 0 <= j < evicted.len() ==> #[trigger] evicted[j] == order[j].1
            &&& listed_size(order.skip(evicted.len() as int), gs) <= limit
        }),
{
    let s = ages(gs);
    let order = sort_by_age(s);
    lemma_sort_by_age_members(s);
    lemma_sort_by_age_ordered(s);
    lemma_sorted_ages_size(gs);
    assert(s.no_duplicates()) by {
        assert forall|i: int, j: int| 0 <= i < s.len() && 0 <= j < s.len() && i != j implies s[i] != s[j] by {
            assert(s[i].1 == i as usize && s[j].1 == j as usize);
        }
    }
    lemma_sort_by_age_distinct(s);
    assert forall|i: int| 0 <= i < gs.len() implies #[trigger] lists_group(order, i) by {
        assert(order.contains(s[i]));
        let j = choose|j: int| 0 <= j < order.len() && order[j] == s[i];
        assert(order[j].1 == i);
    }
    assert forall|i: int, j: int| 0 <= i < j < order.len() implies (#[trigger] order[i]).1 != (#[trigger] order[j]).1 by {
        let a = choose|a: int| 0 <= a < s.len() && s[a] == order[i];
        let b = choose|b: int| 0 <= b < s.len() && s[b] == order[j];
        assert(order[i] != order[j]);
    }
    assert forall|j: int| 0 <= j < order.len() implies (#[trigger] order[j]).0 == gs[order[j].1 as int].modified_unix_secs by {
        let a = choose|a: int| 0 <= a < s.len() && s[a] == order[j];
    }
    if size_sum(gs) > limit {
        lemma_evict_walk_prefix(order, gs, size_sum(gs) as u64, limit);
    } else {
        assert(order.skip(0) =~= order);
    }
}

} // verus!

verus! {

/// File `f` is listed in a group of its own name.
pub open spec fn file_grouped(gs: Seq<GroupModel>, fs: Seq<CacheFile>, f: int) -> bool {
    exists|g: int| 0 <= g < gs.len() && gs[g].stem == fs[f].stem@ && (#[trigger] gs[g].files).contains(f as usize)
}

/// Grouping puts every file in the one group of its name: no two groups
/// share a name, every file a group lists has the group's name, and every
/// file is listed.
pub proof fn lemma_groups_by_name(fs: Seq<CacheFile>)
    requires
        fs.len() <= usize::MAX,
    ensures
        ({
            let gs = group_files(fs);
            &&& forall|i: int, j: int| 0 <= i < j < gs.len() ==> (#[trigger] gs[i]).stem != (#[trigger] gs[j]).stem
            &&& forall|g: int, k: int| 0 <= g < gs.len() && 0 <= k < gs[g].files.len() ==> {
                &&& (#[trigger] gs[g].files[k]) < fs.len()
                &&& fs[gs[g].files[k] as int].stem@ == gs[g].stem
            }
            &&& forall|f: int| 0 <= f < fs.len() ==> #[trigger] file_grouped(gs, fs, f)
        }),
    decreases fs.len(),
{
    if fs.len() > 0 {
        let d = fs.drop_last();
        let x = fs.last();
        let n1 = d.len() as int;
        lemma_groups_by_name(d);
        let old_gs = group_files(d);
        let gs = group_files(fs);
        lemma_group_index(old_gs, x.stem@);
        assert(gs == add_file(old_gs, x, n1));
        assert forall|f: int| 0 <= f < d.len() implies d[f] == fs[f] by {}
        match group_index(old_gs, x.stem@) {
            Some(k) => {
                assert forall|i: int, j: int| 0 <= i < j < gs.len() implies (#[trigger] gs[i]).stem != (#[trigger] gs[j]).stem by {
                    assert(gs[i].stem == old_gs[i].stem && gs[j].stem == old_gs[j].stem);
                }
                assert forall|g: int, k2: int| 0 <= g < gs.len() && 0 <= k2 < gs[g].files.len() implies {
                    &&& (#[trigger] gs[g].files[k2]) < fs.len()
                    &&& fs[gs[g].files[k2] as int].stem@ == gs[g].stem
                } by {
                    if g == k && k2 == old_gs[k].files.len() {
                        assert(gs[g].files[k2] == n1 as usize);
                    } else if g == k {
                        assert(gs[g].files[k2] == old_gs[g].files[k2]);
                    }
                }
                assert forall|f: int| 0 <= f < fs.len() implies #[trigger] file_grouped(gs, fs, f) by {
                    if f < n1 {
                        assert(file_grouped(old_gs, d, f));
                        let g = choose|g: int| 0 <= g < old_gs.len() && old_gs[g].stem == d[f].stem@ && (#[trigger] old_gs[g].files).contains(f as usize);
                        if g == k {
                            let i = choose|i: int| 0 <= i < old_gs[g].files.len() && old_gs[g].files[i] == f as usize;
                            assert(gs[g].files[i] == f as usize);
                        } else {
                            assert(gs[g] == old_gs[g]);
                        }
                        assert(gs[g].files.contains(f as usize));
                    } else {
                        assert(gs[k].files[old_gs[k].files.len() as int] == f as usize);
                        assert(gs[k].files.contains(f as usize));
                    }
                }
            },
            None => {
                let m = old_gs.len() as int;
                assert forall|i: int, j: int| 0 <= i < j < gs.len() implies (#[trigger] gs[i]).stem != (#[trigger] gs[j]).stem by {
                    if j < m {
                        assert(gs[i] == old_gs[i] && gs[j] == old_gs[j]);
                    } else {
                        assert(gs[i] == old_gs[i]);
                    }
                }
                assert forall|g: int, k2: int| 0 <= g < gs.len() && 0 <= k2 < gs[g].files.len() implies {
                    &&& (#[trigger] gs[g].files[k2]) < fs.len()
                    &&& fs[gs[g].files[k2] as int].stem@ == gs[g].stem
                } by {
                    if g < m {
                        assert(gs[g] == old_gs[g]);
                    }
                }
                assert forall|f: int| 0 <= f < fs.len() implies #[trigger] file_grouped(gs, fs, f) by {
                    if f < n1 {
                        assert(file_grouped(old_gs, d, f));
                        let g = choose|g: int| 0 <= g < old_gs.len() && old_gs[g].stem == d[f].stem@ && (#[trigger] old_gs[g].files).contains(f as usize);
                        assert(gs[g] == old_gs[g]);
                    } else {
                        assert(gs[m].files[0] == f as usize);
                        assert(gs[m].files.contains(f as usize));
                    }
                }
            },
        }
    }
}

} // verus!

verus! {

/// Group `g` lists a file that changed when the group did.
pub open spec fn age_witnessed(fs: Seq<CacheFile>, g: GroupModel) -> bool {
    exists|k: int| 0 <= k < g.files.len() && fs[#[trigger] g.files[k] as int].modified_unix_secs == g.modified_unix_secs
}

/// A group's age is that of its oldest file: no file it lists changed
/// before it, and one of them changed exactly then.
pub proof fn lemma_group_age_is_oldest(fs: Seq<CacheFile>)
    requires
        fs.len() <= usize::MAX,
    ensures
        forall|g: int, k: int| 0 <= g < group_files(fs).len() && 0 <= k < group_files(fs)[g].files.len() ==> {
            &&& (#[trigger] group_files(fs)[g].files[k]) < fs.len()
            &&& group_files(fs)[g].modified_unix_secs <= fs[group_files(fs)[g].files[k] as int].modified_unix_secs
        },
        forall|g: int| 0 <= g < group_files(fs).len() ==> age_witnessed(fs, #[trigger] group_files(fs)[g]),
    decreases fs.len(),
{
    if fs.len() > 0 {
        let d = fs.drop_last();
        let x = fs.last();
        let n1 = d.len() as int;
        lemma_group_age_is_oldest(d);
        let old_gs = group_files(d);
        let gs = group_files(fs);
        lemma_group_index(old_gs, x.stem@);
        assert(gs == add_file(old_gs, x, n1));
        assert forall|f: int| 0 <= f < d.len() implies d[f] == fs[f] by {}
        assert forall|g: int| 0 <= g < old_gs.len() implies age_witnessed(fs, #[trigger] old_gs[g]) by {
            assert(age_witnessed(d, old_gs[g]));
            let k = choose|k: int| 0 <= k < old_gs[g].files.len() && d[#[trigger] old_gs[g].files[k] as int].modified_unix_secs == old_gs[g].modified_unix_secs;
            assert(old_gs[g].files[k] < d.len());
            assert(fs[old_gs[g].files[k] as int] == d[old_gs[g].files[k] as int]);
        }
        match group_index(old_gs, x.stem@) {
            Some(k0) => {
                assert forall|g: int, k: int| 0 <= g < gs.len() && 0 <= k < gs[g].files.len() implies {
                    &&& (#[trigger] gs[g].files[k]) < fs.len()
                    &&& gs[g].modified_unix_secs <= fs[gs[g].files[k] as int].modified_unix_secs
                } by {
                    if g != k0 {
                        assert(gs[g] == old_gs[g]);
                        assert(old_gs[g].files[k] < d.len());
                    } else if k < old_gs[k0].files.len() {
                        assert(gs[g].files[k] == old_gs[g].files[k]);
                        assert(old_gs[g].files[k] < d.len());
                    } else {
                        assert(gs[g].files[k] == n1 as usize);
                    }
                }
                assert forall|g: int| 0 <= g < gs.len() implies age_witnessed(fs, #[trigger] gs[g]) by {
                    if g != k0 {
                        assert(gs[g] == old_gs[g]);
                        assert(age_witnessed(fs, old_gs[g]));
                    } else if x.modified_unix_secs < old_gs[k0].modified_unix_secs {
                        let k = old_gs[k0].files.len() as int;
                        assert(gs[g].files[k] == n1 as usize);
                        assert(fs[gs[g].files[k] as int].modified_unix_secs == gs[g].modified_unix_secs);
                    } else {
                        assert(age_witnessed(fs, old_gs[g]));
                        let k = choose|k: int| 0 <= k < old_gs[g].files.len() && fs[#[trigger] old_gs[g].files[k] as int].modified_unix_secs == old_gs[g].modified_unix_secs;
                        assert(gs[g].files[k] == old_gs[g].files[k]);
                        assert(fs[gs[g].files[k] as int].modified_unix_secs == gs[g].modified_unix_secs);
                    }
                }
            },
            None => {
                let m = old_gs.len() as int;
                assert forall|g: int, k: int| 0 <= g < gs.len() && 0 <= k < gs[g].files.len() implies {
                    &&& (#[trigger] gs[g].files[k]) < fs.len()
                    &&& gs[g].modified_unix_secs <= fs[gs[g].files[k] as int].modified_unix_secs
                } by {
                    if g < m {
                        assert(gs[g] == old_gs[g]);
                        assert(old_gs[g].files[k] < d.len());
                    } else {
                        assert(gs[g].files[k] == n1 as usize);
                    }
                }
                assert forall|g: int| 0 <= g < gs.len() implies age_witnessed(fs, #[trigger] gs[g]) by {
                    if g < m {
                        assert(gs[g] == old_gs[g]);
                        assert(age_witnessed(fs, old_gs[g]));
                    } else {
                        assert(gs[g].files[0] == n1 as usize);
                        assert(fs[gs[g].files[0] as int].modified_unix_secs == gs[g].modified_unix_secs);
                    }
                }
            },
        }
    }
}

} // verus!

verus! {

/// The sizes of the files listed at `idx`, added up.
pub open spec fn listed_file_sizes(fs: Seq<CacheFile>, idx: Seq<usize>) -> int
    decreases idx.len(),
{
    if idx.len() == 0 {
        0
    } else {
        listed_file_sizes(fs, idx.drop_last()) + fs[idx.last() as int].size
    }
}

proof fn lemma_listed_sizes_prefix(d: Seq<CacheFile>, fs: Seq<CacheFile>, idx: Seq<usize>)
    requires
        d.len() <= fs.len(),
        forall|f: int| 0 <= f < d.len() ==> d[f] == fs[f],
        forall|k: int| 0 <= k < idx.len() ==> (#[trigger] idx[k]) < d.len(),
    ensures
        listed_file_sizes(d, idx) == listed_file_sizes(fs, idx),
        listed_file_sizes(d, idx) >= 0,
    decreases idx.len(),
{
    if idx.len() > 0 {
        let p = idx.drop_last();
        assert forall|k: int| 0 <= k < p.len() implies (#[trigger] p[k]) < d.len() by {
            assert(p[k] == idx[k]);
        }
        lemma_listed_sizes_prefix(d, fs, p);
        assert(idx.last() == idx[idx.len() - 1]);
    }
}

/// A group's size is the sum of the sizes of the files it lists, or
/// `u64::MAX` when that sum does not fit.
pub proof fn lemma_group_size_is_sum(fs: Seq<CacheFile>)
    requires
        fs.len() <= usize::MAX,
    ensures
        forall|g: int| 0 <= g < group_files(fs).len() ==> (#[trigger] group_files(fs)[g]).total_size == (if listed_file_sizes(
            fs,
            group_files(fs)[g].files,
        ) <= u64::MAX {
            listed_file_sizes(fs, group_files(fs)[g].files)
        } else {
            u64::MAX as int
        }),
    decreases fs.len(),
{
    if fs.len() > 0 {
        let d = fs.drop_last();
        let x = fs.last();
        let n1 = d.len() as int;
        lemma_group_size_is_sum(d);
        lemma_group_age_is_oldest(d);
        let old_gs = group_files(d);
        let gs = group_files(fs);
        lemma_group_index(old_gs, x.stem@);
        assert(gs == add_file(old_gs, x, n1));
        assert forall|f: int| 0 <= f < d.len() implies d[f] == fs[f] by {}
        assert forall|g: int| 0 <= g < old_gs.len() implies listed_file_sizes(d, (#[trigger] old_gs[g]).files)
            == listed_file_sizes(fs, old_gs[g].files) && listed_file_sizes(d, old_gs[g].files) >= 0 by {
            assert forall|k: int| 0 <= k < old_gs[g].files.len() implies (#[trigger] old_gs[g].files[k]) < d.len() by {}
            lemma_listed_sizes_prefix(d, fs, old_gs[g].files);
        }
        match group_index(old_gs, x.stem@) {
            Some(k0) => {
                assert forall|g: int| 0 <= g < gs.len() implies (#[trigger] gs[g]).total_size == (if listed_file_sizes(
                    fs,
                    gs[g].files,
                ) <= u64::MAX {
                    listed_file_sizes(fs, gs[g].files)
                } else {
                    u64::MAX as int
                }) by {
                    if g != k0 {
                        assert(gs[g] == old_gs[g]);
                        assert(old_gs[g].total_size == (if listed_file_sizes(d, old_gs[g].files) <= u64::MAX {
                            listed_file_sizes(d, old_gs[g].files)
                        } else {
                            u64::MAX as int
                        }));
                    } else {
                        let files = gs[g].files;
                        assert(files.drop_last() =~= old_gs[g].files);
                        assert(files.last() == n1 as usize);
                        assert(listed_file_sizes(fs, files) == listed_file_sizes(fs, old_gs[g].files) + x.size);
                        assert(old_gs[g].total_size == (if listed_file_sizes(d, old_gs[g].files) <= u64::MAX {
                            listed_file_sizes(d, old_gs[g].files)
                        } else {
                            u64::MAX as int
                        }));
                    }
                }
            },
            None => {
                let m = old_gs.len() as int;
                assert forall|g: int| 0 <= g < gs.len() implies (#[trigger] gs[g]).total_size == (if listed_file_sizes(
                    fs,
                    gs[g].files,
                ) <= u64::MAX {
                    listed_file_sizes(fs, gs[g].files)
                } else {
                    u64::MAX as int
                }) by {
                    if g < m {
                        assert(gs[g] == old_gs[g]);
                        assert(old_gs[g].total_size == (if listed_file_sizes(d, old_gs[g].files) <= u64::MAX {
                            listed_file_sizes(d, old_gs[g].files)
                        } else {
                            u64::MAX as int
                        }));
                    } else {
                        let files = gs[g].files;
                        assert(files =~= seq![n1 as usize]);
                        assert(files.drop_last() =~= Seq::<usize>::empty());
                        assert(listed_file_sizes(fs, files.drop_last()) == 0);
                        assert(files.last() == n1 as usize);
                        assert(fs[n1] == x);
                        assert(listed_file_sizes(fs, files) == x.size);
                    }
                }
            },
        }
    }
}

} // verus!
