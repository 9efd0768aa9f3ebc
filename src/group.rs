//! Partitions records into groups keyed by the value of a fixed column.
use vstd::hash_map::StringHashMap;
use vstd::prelude::*;

verus! {

/// A record as a sequence of field values.
pub type RecordView = Seq<Seq<char>>;

/// A group as its key and its records in input order.
pub type GroupView = (Seq<char>, Seq<RecordView>);

/// Zero-based position of the column whose value keys a record's group.
pub const KEY_COLUMN: usize = 2;

/// The key of records that lack a value in the key column.
pub open spec fn unknown_key() -> Seq<char> {
    "unknown"@
}

/// The group key of a record: its value in the key column, or `unknown`
/// when the record is too short to have one or the value is blank.
pub open spec fn key_of(r: RecordView) -> Seq<char> {
    if r.len() > KEY_COLUMN && r[KEY_COLUMN as int].len() > 0 {
        r[KEY_COLUMN as int]
    } else {
        unknown_key()
    }
}

/// The distinct keys of `rs`, in the order in which each first occurs.
pub open spec fn group_keys(rs: Seq<RecordView>) -> Seq<Seq<char>>
    decreases rs.len(),
{
    if rs.len() == 0 {
        Seq::empty()
    } else {
        let ks = group_keys(rs.drop_last());
        let k = key_of(rs.last());
        if ks.contains(k) {
            ks
        } else {
            ks.push(k)
        }
    }
}

/// The records of `rs` whose key is `k`, in input order.
pub open spec fn members(rs: Seq<RecordView>, k: Seq<char>) -> Seq<RecordView> {
    rs.filter(|r: RecordView| key_of(r) == k)
}

/// The partition of `rs` by key: one group per distinct key, in order of
/// first occurrence, each holding its records in input order.
pub open spec fn grouped(rs: Seq<RecordView>) -> Seq<GroupView> {
    group_keys(rs).map_values(|k: Seq<char>| (k, members(rs, k)))
}

/// Every key that occurs in `rs` is among its group keys, and only those.
pub proof fn lemma_group_keys_complete(rs: Seq<RecordView>)
    ensures
        forall|j: int| 0 <= j < rs.len() ==> group_keys(rs).contains(#[trigger] key_of(rs[j])),
        forall|k: Seq<char>| group_keys(rs).contains(k) ==> exists|j: int|
            0 <= j < rs.len() && key_of(rs[j]) == k,
    decreases rs.len(),
{
    if rs.len() > 0 {
        let init = rs.drop_last();
        lemma_group_keys_complete(init);
        assert forall|j: int| 0 <= j < rs.len() implies group_keys(rs).contains(
            #[trigger] key_of(rs[j]),
        ) by {
            let ks = group_keys(init);
            if j < rs.len() - 1 {
                assert(init[j] == rs[j]);
                let i = choose|i: int| 0 <= i < ks.len() && ks[i] == key_of(init[j]);
                if !ks.contains(key_of(rs.last())) {
                    assert(ks.push(key_of(rs.last()))[i] == key_of(rs[j]));
                }
            } else {
                let ks = group_keys(init);
                assert(rs[j] == rs.last());
                if !ks.contains(key_of(rs.last())) {
                    assert(ks.push(key_of(rs.last()))[ks.len() as int] == key_of(rs.last()));
                }
            }
        }
        assert forall|k: Seq<char>| group_keys(rs).contains(k) implies exists|j: int|
            0 <= j < rs.len() && key_of(rs[j]) == k by {
            let ks = group_keys(init);
            if ks.contains(k) {
                let j = choose|j: int| 0 <= j < init.len() && key_of(init[j]) == k;
                assert(rs[j] == init[j]);
            } else {
                assert(key_of(rs[rs.len() - 1]) == k);
            }
        }
    }
}

/// No key occurs twice among the group keys.
pub proof fn lemma_group_keys_distinct(rs: Seq<RecordView>)
    ensures
        group_keys(rs).no_duplicates(),
    decreases rs.len(),
{
    if rs.len() > 0 {
        lemma_group_keys_distinct(rs.drop_last());
    }
}

/// A key that is not among the group keys has no members.
pub proof fn lemma_absent_key_no_members(rs: Seq<RecordView>, k: Seq<char>)
    requires
        !group_keys(rs).contains(k),
    ensures
        members(rs, k) == Seq::<RecordView>::empty(),
    decreases rs.len(),
{
    reveal(Seq::filter);
    if rs.len() == 0 {
        assert(members(rs, k) =~= Seq::<RecordView>::empty());
    } else {
        let init = rs.drop_last();
        let ks = group_keys(init);
        let last = rs.last();
        if ks.contains(k) {
            let i = choose|i: int| 0 <= i < ks.len() && ks[i] == k;
            if !ks.contains(key_of(last)) {
                assert(ks.push(key_of(last))[i] == k);
            }
        }
        if !ks.contains(key_of(last)) {
            assert(ks.push(key_of(last))[ks.len() as int] == key_of(last));
        }
        lemma_absent_key_no_members(init, k);
        assert(init.push(last) == rs);
        init.lemma_filter_push(last, |r: RecordView| key_of(r) == k);
    }
}

/// The number of records over all groups of `gs`.
pub open spec fn total_records(gs: Seq<GroupView>) -> nat
    decreases gs.len(),
{
    if gs.len() == 0 {
        0
    } else {
        total_records(gs.drop_last()) + gs.last().1.len()
    }
}

/// The number of records of `rs` whose key is among `ks`.
pub open spec fn count_over(ks: Seq<Seq<char>>, rs: Seq<RecordView>) -> nat
    decreases ks.len(),
{
    if ks.len() == 0 {
        0
    } else {
        count_over(ks.drop_last(), rs) + members(rs, ks.last()).len()
    }
}

proof fn lemma_total_is_count(ks: Seq<Seq<char>>, rs: Seq<RecordView>)
    ensures
        total_records(ks.map_values(|k: Seq<char>| (k, members(rs, k)))) == count_over(ks, rs),
    decreases ks.len(),
{
    if ks.len() > 0 {
        lemma_total_is_count(ks.drop_last(), rs);
        let f = |k: Seq<char>| (k, members(rs, k));
        assert(ks.map_values(f).drop_last() =~= ks.drop_last().map_values(f));
    }
}

proof fn lemma_count_push(ks: Seq<Seq<char>>, rs: Seq<RecordView>, r: RecordView)
    requires
        ks.no_duplicates(),
    ensures
        count_over(ks, rs.push(r)) == count_over(ks, rs) + if ks.contains(key_of(r)) {
            1nat
        } else {
            0nat
        },
    decreases ks.len(),
{
    if ks.len() > 0 {
        let init = ks.drop_last();
        lemma_count_push(init, rs, r);
        rs.lemma_filter_push(r, |x: RecordView| key_of(x) == ks.last());
        if init.contains(key_of(r)) {
            let i = choose|i: int| 0 <= i < init.len() && init[i] == key_of(r);
            assert(ks[i] == init[i]);
        }
        if ks.contains(key_of(r)) && !init.contains(key_of(r)) {
            let i = choose|i: int| 0 <= i < ks.len() && ks[i] == key_of(r);
            if i < ks.len() - 1 {
                assert(init[i] == ks[i]);
            }
        }
    }
}

/// Every record is counted once: over all groups, the record counts add up
/// to the number of input records.
pub proof fn lemma_total_preserved(rs: Seq<RecordView>)
    ensures
        total_records(grouped(rs)) == rs.len(),
    decreases rs.len(),
{
    lemma_total_is_count(group_keys(rs), rs);
    if rs.len() > 0 {
        let init = rs.drop_last();
        let r = rs.last();
        let ks = group_keys(init);
        lemma_total_preserved(init);
        lemma_total_is_count(ks, init);
        lemma_group_keys_distinct(init);
        assert(init.push(r) == rs);
        lemma_count_push(ks, init, r);
        if !ks.contains(key_of(r)) {
            let ks2 = ks.push(key_of(r));
            assert(ks2.drop_last() == ks);
            lemma_absent_key_no_members(init, key_of(r));
            init.lemma_filter_push(r, |x: RecordView| key_of(x) == key_of(r));
        }
    }
}

/// Some group of `gs` is keyed by the key of `r` and holds `r`.
pub open spec fn placed(gs: Seq<GroupView>, r: RecordView) -> bool {
    exists|j: int| 0 <= j < gs.len() && gs[j].0 == key_of(r) && #[trigger] gs[j].1.contains(r)
}

proof fn lemma_every_record_grouped(rs: Seq<RecordView>)
    ensures
        forall|i: int| 0 <= i < rs.len() ==> #[trigger] placed(grouped(rs), rs[i]),
{
    lemma_group_keys_complete(rs);
    assert forall|i: int| 0 <= i < rs.len() implies #[trigger] placed(grouped(rs), rs[i]) by {
        let k = key_of(rs[i]);
        assert(group_keys(rs).contains(k));
        let j = choose|j: int| 0 <= j < group_keys(rs).len() && group_keys(rs)[j] == k;
        assert(grouped(rs)[j].1 == members(rs, k));
        rs.lemma_filter_contains(|r: RecordView| key_of(r) == k, i);
        assert(grouped(rs)[j].0 == key_of(rs[i]) && grouped(rs)[j].1.contains(rs[i]));
        assert(placed(grouped(rs), rs[i]));
    }
}

/// Each input record appears in exactly one group: the one whose key is the
/// record's key. Keys are distinct, and a group holds only records with its
/// key, in the order in which they occur in the input.
pub proof fn lemma_each_record_in_one_group(rs: Seq<RecordView>)
    ensures
        group_keys(rs).no_duplicates(),
        forall|i: int| 0 <= i < rs.len() ==> #[trigger] placed(grouped(rs), rs[i]),
        forall|i: int, j: int|
            0 <= i < rs.len() && 0 <= j < grouped(rs).len() && #[trigger] grouped(rs)[j].1.contains(
                rs[i],
            ) ==> grouped(rs)[j].0 == key_of(rs[i]),
        forall|j: int|
            0 <= j < grouped(rs).len() ==> #[trigger] grouped(rs)[j].1 == rs.filter(
                |r: RecordView| key_of(r) == grouped(rs)[j].0,
            ),
        total_records(grouped(rs)) == rs.len(),
{
    lemma_group_keys_distinct(rs);
    lemma_group_keys_complete(rs);
    lemma_total_preserved(rs);
    broadcast use vstd::seq_lib::group_filter_ensures;
    lemma_every_record_grouped(rs);
    assert forall|i: int, j: int|
        0 <= i < rs.len() && 0 <= j < grouped(rs).len() && #[trigger] grouped(rs)[j].1.contains(
            rs[i],
        ) implies grouped(rs)[j].0 == key_of(rs[i]) by {
        let k = grouped(rs)[j].0;
        let m = members(rs, k);
        let p = choose|p: int| 0 <= p < m.len() && m[p] == rs[i];
    }
}

/// The positions in `rs` of the members of `k`: strictly increasing, and
/// covering every record whose key is `k`.
proof fn lemma_member_positions(rs: Seq<RecordView>, k: Seq<char>) -> (idx: Seq<int>)
    ensures
        idx.len() == members(rs, k).len(),
        forall|m: int|
            0 <= m < idx.len() ==> 0 <= #[trigger] idx[m] < rs.len() && rs[idx[m]] == members(
                rs,
                k,
            )[m],
        forall|a: int, b: int| 0 <= a < b < idx.len() ==> #[trigger] idx[a] < #[trigger] idx[b],
        forall|p: int| 0 <= p < rs.len() && key_of(#[trigger] rs[p]) == k ==> idx.contains(p),
    decreases rs.len(),
{
    reveal(Seq::filter);
    if rs.len() == 0 {
        Seq::empty()
    } else {
        let init = rs.drop_last();
        let last = rs.last();
        let prev = lemma_member_positions(init, k);
        assert(init.push(last) == rs);
        init.lemma_filter_push(last, |r: RecordView| key_of(r) == k);
        let idx = if key_of(last) == k {
            prev.push(rs.len() - 1)
        } else {
            prev
        };
        assert forall|m: int| 0 <= m < idx.len() implies 0 <= #[trigger] idx[m] < rs.len()
            && rs[idx[m]] == members(rs, k)[m] by {
            if m < prev.len() {
                assert(idx[m] == prev[m]);
                assert(init[prev[m]] == rs[prev[m]]);
            }
        }
        assert forall|p: int| 0 <= p < rs.len() && key_of(#[trigger] rs[p]) == k implies idx.contains(
            p,
        ) by {
            if p < rs.len() - 1 {
                assert(init[p] == rs[p]);
                let m = choose|m: int| 0 <= m < prev.len() && prev[m] == p;
                assert(idx[m] == p);
            } else {
                assert(idx[idx.len() - 1] == p);
            }
        }
        idx
    }
}

/// Grouping keeps input order: the records of a group sit in the input at
/// strictly increasing positions, and every input record with the group's
/// key is among them.
pub proof fn lemma_group_order_kept(rs: Seq<RecordView>, j: int) -> (idx: Seq<int>)
    requires
        0 <= j < grouped(rs).len(),
    ensures
        idx.len() == grouped(rs)[j].1.len(),
        forall|m: int|
            0 <= m < idx.len() ==> 0 <= #[trigger] idx[m] < rs.len() && rs[idx[m]]
                == grouped(rs)[j].1[m],
        forall|a: int, b: int| 0 <= a < b < idx.len() ==> #[trigger] idx[a] < #[trigger] idx[b],
        forall|p: int|
            0 <= p < rs.len() && key_of(#[trigger] rs[p]) == grouped(rs)[j].0 ==> idx.contains(p),
{
    lemma_member_positions(rs, grouped(rs)[j].0)
}

/// The key under which `record` is grouped.
pub fn group_key(record: &Vec<String>) -> (r: String)
    ensures
        r@ == key_of(record.deep_view()),
{
    if record.len() > KEY_COLUMN && !record[KEY_COLUMN].as_str().is_empty() {
        record[KEY_COLUMN].clone()
    } else {
        "unknown".to_owned()
    }
}

/// Records partitioned by key. Groups are kept in order of their key's first
/// occurrence; each holds its records in the order they were added.
pub struct GroupTable {
    keys: Vec<String>,
    groups: Vec<Vec<Vec<String>>>,
    index: StringHashMap<usize>,
}

impl View for GroupTable {
    type V = Seq<GroupView>;

    closed spec fn view(&self) -> Seq<GroupView> {
        Seq::new(self.keys@.len(), |i: int| (self.keys@[i]@, self.groups@[i].deep_view()))
    }
}

impl GroupTable {
    /// The index maps each key to the position of its group, and nothing else.
    pub closed spec fn wf(&self) -> bool {
        &&& self.keys@.len() == self.groups@.len()
        &&& forall|i: int|
            0 <= i < self.keys@.len() ==> #[trigger] self.index@.contains_key(self.keys@[i]@)
                && self.index@[self.keys@[i]@] == i
        &&& forall|k: Seq<char>|
            #[trigger] self.index@.contains_key(k) ==> self.index@[k] < self.keys@.len()
                && self.keys@[self.index@[k] as int]@ == k
    }

    fn new() -> (r: GroupTable)
        ensures
            r.wf(),
            r@ == grouped(Seq::empty()),
    {
        let r = GroupTable { keys: Vec::new(), groups: Vec::new(), index: StringHashMap::new() };
        assert(r@ =~= grouped(Seq::empty()));
        r
    }

    fn push(&mut self, record: Vec<String>, Ghost(rs): Ghost<Seq<RecordView>>)
        requires
            old(self).wf(),
            old(self)@ == grouped(rs),
        ensures
            final(self).wf(),
            final(self)@ == grouped(rs.push(record.deep_view())),
    {
        let ghost r = record.deep_view();
        let ghost new_rs = rs.push(r);
        let key = group_key(&record);
        proof {
            assert(new_rs.drop_last() == rs);
            assert(new_rs.last() == r);
            lemma_group_keys_distinct(rs);
            assert forall|k: Seq<char>| #[trigger] members(new_rs, k) == (if key_of(r) == k {
                members(rs, k).push(r)
            } else {
                members(rs, k)
            }) by {
                rs.lemma_filter_push(r, |x: RecordView| key_of(x) == k);
            }
        }
        match self.index.get(key.as_str()) {
            Some(i) => {
                let i: usize = *i;
                let ghost old_groups = self.groups@;
                let mut g = Vec::new();
                std::mem::swap(&mut g, &mut self.groups[i]);
                g.push(record);
                std::mem::swap(&mut g, &mut self.groups[i]);
                proof {
                    let ks = group_keys(rs);
                    assert(old(self)@.len() == ks.len());
                    assert(old(self)@[i as int].0 == old(self).keys@[i as int]@);
                    assert(grouped(rs)[i as int].0 == ks[i as int]);
                    assert(ks[i as int] == key@);
                    assert(ks.contains(key@));
                    assert(group_keys(new_rs) == ks);
                    assert forall|j: int| 0 <= j < self.keys@.len() implies self.groups@[j].deep_view()
                        == #[trigger] members(new_rs, self.keys@[j]@) by {
                        if j == i {
                            assert(self.groups@[j].deep_view() =~= old_groups[j].deep_view().push(r));
                        } else {
                            assert(self.groups@[j] == old_groups[j]);
                            assert(old(self)@[j].0 == ks[j]);
                            assert(ks[j] != ks[i as int]);
                        }
                    }
                    assert forall|j: int| 0 <= j < ks.len() implies #[trigger] self@[j] == grouped(
                        new_rs,
                    )[j] by {
                        assert(old(self)@[j].0 == ks[j]);
                        assert(self.groups@[j].deep_view() == members(new_rs, self.keys@[j]@));
                    }
                    assert(self@ =~= grouped(new_rs));
                }
            },
            None => {
                let ghost old_keys = self.keys@;
                let n: usize = self.keys.len();
                self.index.insert(key.clone(), n);
                self.keys.push(key);
                let mut g = Vec::new();
                g.push(record);
                self.groups.push(g);
                proof {
                    let ks = group_keys(rs);
                    assert(old(self)@.len() == ks.len());
                    assert forall|j: int| 0 <= j < n implies #[trigger] old_keys[j]@ == ks[j] by {
                        assert(old(self)@[j].0 == old_keys[j]@);
                        assert(grouped(rs)[j].0 == ks[j]);
                    }
                    if ks.contains(key_of(r)) {
                        let j = choose|j: int| 0 <= j < ks.len() && ks[j] == key_of(r);
                        assert(old_keys[j]@ == key_of(r));
                    }
                    lemma_absent_key_no_members(rs, key_of(r));
                    assert(group_keys(new_rs) == ks.push(key_of(r)));
                    assert(self.groups@[n as int].deep_view() =~= seq![r]);
                    assert(members(rs, key_of(r)).push(r) =~= seq![r]);
                    assert forall|j: int| 0 <= j < n implies self.keys@[j]@ != key_of(r) by {
                        assert(old_keys[j]@ == ks[j]);
                    }
                    assert forall|j: int| 0 <= j <= n implies #[trigger] self@[j] == grouped(
                        new_rs,
                    )[j] by {
                        if j < n {
                            assert(old(self)@[j] == grouped(rs)[j]);
                            assert(self.groups@[j] == old(self).groups@[j]);
                        }
                    }
                    assert(self@ =~= grouped(new_rs));
                }
            },
        }
    }

    /// Number of groups.
    pub fn len(&self) -> (r: usize)
        requires
            self.wf(),
        ensures
            r == self@.len(),
    {
        self.keys.len()
    }

    /// The key of the group at position `i`.
    pub fn key(&self, i: usize) -> (r: &String)
        requires
            self.wf(),
            i < self@.len(),
        ensures
            r@ == self@[i as int].0,
    {
        &self.keys[i]
    }

    /// The records of the group at position `i`, in input order.
    pub fn records(&self, i: usize) -> (r: &Vec<Vec<String>>)
        requires
            self.wf(),
            i < self@.len(),
        ensures
            r.deep_view() == self@[i as int].1,
    {
        &self.groups[i]
    }
}

/// Partitions `records` by key: one group per distinct key, in order of the
/// key's first occurrence, each holding its records in input order.
pub fn group_records(records: Vec<Vec<String>>) -> (r: GroupTable)
    ensures
        r.wf(),
        r@ == grouped(records.deep_view()),
{
    let ghost all = records.deep_view();
    let mut table = GroupTable::new();
    for record in it: records.into_iter()
        invariant
            it.seq() == records@,
            all == records.deep_view(),
            table.wf(),
            table@ == grouped(all.take(it.index() as int)),
    {
        let ghost done = all.take(it.index() as int);
        proof {
            assert(all.take(it.index() + 1) =~= done.push(record.deep_view()));
        }
        table.push(record, Ghost(done));
    }
    assert(all.take(all.len() as int) =~= all);
    table
}

} // verus!
