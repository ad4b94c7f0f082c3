//! Counting texts and sorting the counts.
use vstd::prelude::*;

use crate::order::{
    ahead, is_order, rank_order, ranks_before, text_order_is_total, text_order_is_transitive,
};
use crate::text::{same_text, texts};

verus! {

/// How often each of some texts occurred.
#[derive(Debug)]
pub struct Counts {
    entries: Vec<(String, u64)>,
}

/// Whether `key` is the name of an entry.
spec fn named(entries: Seq<(String, u64)>, key: Seq<char>) -> bool {
    exists|i: int| 0 <= i < entries.len() && #[trigger] entries[i].0@ == key
}

/// Which entry has the name `key`.
spec fn place(entries: Seq<(String, u64)>, key: Seq<char>) -> int {
    choose|i: int| 0 <= i < entries.len() && #[trigger] entries[i].0@ == key
}

/// Whether no two entries have the same name.
spec fn distinct(entries: Seq<(String, u64)>) -> bool {
    forall|i: int, j: int|
        0 <= i < j < entries.len() ==> #[trigger] entries[i].0@ != #[trigger] entries[j].0@
}

/// The counts of entries by their names.
spec fn entry_map(entries: Seq<(String, u64)>) -> Map<Seq<char>, u64> {
    Map::new(|key: Seq<char>| named(entries, key), |key: Seq<char>| entries[place(entries, key)].1)
}

/// The count of an entry is found by its name.
proof fn entry_is_found(entries: Seq<(String, u64)>, i: int)
    requires
        distinct(entries),
        0 <= i < entries.len(),
    ensures
        entry_map(entries).contains_key(entries[i].0@),
        entry_map(entries)[entries[i].0@] == entries[i].1,
{
    assert(named(entries, entries[i].0@));
    let found = place(entries, entries[i].0@);
    assert(entries[found].0@ == entries[i].0@);
    if found != i {
        assert(entries[i].0@ != entries[found].0@);
    }
}

impl View for Counts {
    type V = Map<Seq<char>, u64>;

    closed spec fn view(&self) -> Map<Seq<char>, u64> {
        entry_map(self.entries@)
    }
}

impl Counts {
    #[verifier::type_invariant]
    spec fn well_formed(self) -> bool {
        distinct(self.entries@)
    }

    /// No counts.
    pub fn new() -> (counts: Counts)
        ensures
            counts@ == Map::<Seq<char>, u64>::empty(),
    {
        let entries: Vec<(String, u64)> = Vec::new();
        assert(entry_map(entries@) =~= Map::<Seq<char>, u64>::empty());
        Counts { entries }
    }

    /// Finds the entry of `key`.
    fn find(&self, key: &str) -> (found: Option<usize>)
        ensures
            match found {
                Some(i) => i < self.entries@.len() && self.entries@[i as int].0@ == key@,
                None => !self@.contains_key(key@),
            },
    {
        let mut i: usize = 0;
        while i < self.entries.len()
            invariant
                i <= self.entries@.len(),
                forall|j: int| 0 <= j < i ==> #[trigger] self.entries@[j].0@ != key@,
            decreases self.entries@.len() - i,
        {
            if same_text(self.entries[i].0.as_str(), key) {
                return Some(i);
            }
            i += 1;
        }
        None
    }

    /// Tells whether nothing was counted.
    pub fn is_empty(&self) -> (empty: bool)
        ensures
            empty == (self@ == Map::<Seq<char>, u64>::empty()),
    {
        proof {
            use_type_invariant(self);
            if self.entries@.len() == 0 {
                assert(self@ =~= Map::<Seq<char>, u64>::empty());
            } else {
                entry_is_found(self.entries@, 0);
            }
        }
        self.entries.len() == 0
    }

    /// How often `key` occurred.
    pub fn get(&self, key: &str) -> (count: Option<u64>)
        ensures
            count == (if self@.contains_key(key@) {
                Some(self@[key@])
            } else {
                None
            }),
    {
        proof {
            use_type_invariant(self);
        }
        match self.find(key) {
            Some(i) => {
                proof {
                    entry_is_found(self.entries@, i as int);
                }
                Some(self.entries[i].1)
            },
            None => None,
        }
    }

    /// Sets the count of `key`.
    pub fn insert(&mut self, key: String, count: u64)
        ensures
            final(self)@ == old(self)@.insert(key@, count),
    {
        proof {
            use_type_invariant(&*self);
        }
        let ghost before = self.entries@;
        let found = self.find(key.as_str());
        let mut entries: Vec<(String, u64)> = Vec::new();
        std::mem::swap(&mut entries, &mut self.entries);
        match found {
            Some(i) => {
                let ghost name = key@;
                entries.set(i, (key, count));
                proof {
                    let after = entries@;
                    assert forall|j: int| 0 <= j < after.len() implies #[trigger] after[j].0@
                        == before[j].0@ by {}
                    assert(distinct(after)) by {
                        assert forall|j: int, k: int|
                            0 <= j < k < after.len() implies #[trigger] after[j].0@
                            != #[trigger] after[k].0@ by {
                            assert(before[j].0@ != before[k].0@);
                        }
                    }
                    same_names_same_map(before, after, i as int);
                }
            },
            None => {
                entries.push((key, count));
                proof {
                    let after = entries@;
                    assert(distinct(after)) by {
                        assert forall|j: int, k: int|
                            0 <= j < k < after.len() implies #[trigger] after[j].0@
                            != #[trigger] after[k].0@ by {
                            assert(after[j] == before[j]);
                            if k < before.len() {
                                assert(after[k] == before[k]);
                            } else {
                                assert(named(before, before[j].0@));
                            }
                        }
                    }
                    new_name_new_entry(before, after);
                }
            },
        }
        self.entries = entries;
    }

    /// Counts `key` once more.
    pub fn add(&mut self, key: String)
        requires
            old(self)@.contains_key(key@) ==> old(self)@[key@] < u64::MAX,
        ensures
            final(self)@ == old(self)@.insert(
                key@,
                (if old(self)@.contains_key(key@) {
                    old(self)@[key@] + 1
                } else {
                    1
                }) as u64,
            ),
    {
        let count: u64 = match self.get(key.as_str()) {
            Some(found) => found + 1,
            None => 1,
        };
        self.insert(key, count);
    }
}

/// Changing the count of an entry changes the map at its name.
proof fn same_names_same_map(
    before: Seq<(String, u64)>,
    after: Seq<(String, u64)>,
    i: int,
)
    requires
        distinct(before),
        distinct(after),
        0 <= i < before.len(),
        after.len() == before.len(),
        after[i].0@ == before[i].0@,
        forall|j: int| 0 <= j < before.len() && j != i ==> after[j] == before[j],
    ensures
        entry_map(after) == entry_map(before).insert(after[i].0@, after[i].1),
{
    let left = entry_map(after);
    let right = entry_map(before).insert(after[i].0@, after[i].1);
    assert forall|key: Seq<char>| left.contains_key(key) == right.contains_key(key) by {
        if left.contains_key(key) {
            let j = place(after, key);
            assert(before[j].0@ == key);
            assert(named(before, key));
        }
        if right.contains_key(key) {
            if key == after[i].0@ {
                assert(named(after, key));
            } else {
                let j = place(before, key);
                assert(after[j].0@ == key);
                assert(named(after, key));
            }
        }
    }
    assert forall|key: Seq<char>| left.contains_key(key) implies left[key] == right[key] by {
        let j = place(after, key);
        entry_is_found(after, j);
        entry_is_found(before, j);
        if j == i {
        } else {
            assert(after[j].0@ != after[i].0@) by {
                if j < i {
                    assert(after[j].0@ != after[i].0@);
                } else {
                    assert(after[i].0@ != after[j].0@);
                }
            }
        }
    }
    assert(left =~= right);
}

/// Adding an entry with a new name adds to the map.
proof fn new_name_new_entry(before: Seq<(String, u64)>, after: Seq<(String, u64)>)
    requires
        distinct(before),
        distinct(after),
        after.len() == before.len() + 1,
        forall|j: int| 0 <= j < before.len() ==> after[j] == before[j],
    ensures
        entry_map(after) == entry_map(before).insert(after.last().0@, after.last().1),
{
    let last = after.len() - 1;
    let left = entry_map(after);
    let right = entry_map(before).insert(after[last].0@, after[last].1);
    assert forall|key: Seq<char>| left.contains_key(key) == right.contains_key(key) by {
        if left.contains_key(key) {
            let j = place(after, key);
            if j < last {
                assert(before[j].0@ == key);
                assert(named(before, key));
            }
        }
        if right.contains_key(key) {
            if key == after[last].0@ {
                assert(named(after, key));
            } else {
                let j = place(before, key);
                assert(after[j].0@ == key);
                assert(named(after, key));
            }
        }
    }
    assert forall|key: Seq<char>| left.contains_key(key) implies left[key] == right[key] by {
        let j = place(after, key);
        entry_is_found(after, j);
        if j < last {
            entry_is_found(before, j);
            assert(after[j].0@ != after[last].0@);
        }
    }
    assert(left =~= right);
}

/// How often `key` stands in `keys`.
pub open spec fn occurrences(keys: Seq<Seq<char>>, key: Seq<char>) -> nat
    decreases keys.len(),
{
    if keys.len() == 0 {
        0
    } else {
        occurrences(keys.drop_last(), key) + if keys.last() == key {
            1nat
        } else {
            0nat
        }
    }
}

/// How often each text of a list stands in it.
pub open spec fn tallies(keys: Seq<Seq<char>>) -> Map<Seq<char>, u64> {
    Map::new(|key: Seq<char>| keys.contains(key), |key: Seq<char>| occurrences(keys, key) as u64)
}

/// A text occurs in a list at most as often as the list is long, and at least once if it is there.
pub proof fn occurrences_fit(keys: Seq<Seq<char>>, key: Seq<char>)
    ensures
        occurrences(keys, key) <= keys.len(),
        occurrences(keys, key) > 0 <==> keys.contains(key),
    decreases keys.len(),
{
    if keys.len() > 0 {
        let head = keys.drop_last();
        occurrences_fit(head, key);
        if keys.contains(key) && keys.last() != key {
            let i = choose|i: int| 0 <= i < keys.len() && keys[i] == key;
            assert(head[i] == key);
        }
        if head.contains(key) {
            let i = choose|i: int| 0 <= i < head.len() && head[i] == key;
            assert(keys[i] == key);
        }
        if keys.last() == key {
            assert(keys[keys.len() - 1] == key);
        }
    }
}

/// One more text is counted once more.
proof fn tallies_grow(keys: Seq<Seq<char>>, key: Seq<char>)
    requires
        keys.len() < u64::MAX,
    ensures
        tallies(keys.push(key)) == tallies(keys).insert(
            key,
            (if tallies(keys).contains_key(key) {
                tallies(keys)[key] + 1
            } else {
                1
            }) as u64,
        ),
        tallies(keys).contains_key(key) ==> tallies(keys)[key] < u64::MAX,
{
    let longer = keys.push(key);
    let left = tallies(longer);
    let right = tallies(keys).insert(
        key,
        (if tallies(keys).contains_key(key) {
            tallies(keys)[key] + 1
        } else {
            1
        }) as u64,
    );
    assert(longer.drop_last() =~= keys);
    occurrences_fit(keys, key);
    assert forall|other: Seq<char>| left.contains_key(other) == right.contains_key(other) by {
        occurrences_fit(keys, other);
        occurrences_fit(longer, other);
    }
    assert(left =~= right);
}

/// Counts how often each text of a list stands in it.
pub fn tally(keys: &Vec<String>) -> (counts: Counts)
    ensures
        counts@ == tallies(texts(keys@)),
{
    let mut counts = Counts::new();
    let total: usize = keys.len();
    let mut i: usize = 0;
    assert(tallies(texts(keys@).take(0)) =~= Map::<Seq<char>, u64>::empty());
    while i < total
        invariant
            i <= total,
            total == keys@.len(),
            counts@ == tallies(texts(keys@).take(i as int)),
        decreases total - i,
    {
        let ghost before = texts(keys@).take(i as int);
        proof {
            tallies_grow(before, keys@[i as int]@);
        }
        counts.add(keys[i].clone());
        i += 1;
        assert(texts(keys@).take(i as int) =~= before.push(keys@[i - 1]@));
    }
    assert(texts(keys@).take(i as int) =~= texts(keys@));
    counts
}

/// The names and counts of rows.
pub open spec fn row_views(rows: Seq<(String, u64)>) -> Seq<(Seq<char>, u64)> {
    rows.map_values(|row: (String, u64)| (row.0@, row.1))
}

/// Whether rows hold the counts, each once, most frequent first and by name where equally frequent.
pub open spec fn is_ranking(counts: Map<Seq<char>, u64>, rows: Seq<(Seq<char>, u64)>) -> bool {
    &&& forall|row: (Seq<char>, u64)| #[trigger]
        rows.contains(row) <==> counts.contains_key(row.0) && counts[row.0] == row.1
    &&& forall|i: int, j: int|
        0 <= i < j < rows.len() ==> ranks_before(#[trigger] rows[i], #[trigger] rows[j])
}

/// The ranking of counts. There is only one.
pub open spec fn ranking(counts: Map<Seq<char>, u64>) -> Seq<(Seq<char>, u64)> {
    choose|rows: Seq<(Seq<char>, u64)>| is_ranking(counts, rows)
}

proof fn rank_is_strict(left: (Seq<char>, u64), right: (Seq<char>, u64))
    requires
        ranks_before(left, right),
    ensures
        !ranks_before(right, left),
        left != right,
{
    text_order_is_total(left.0, right.0);
}

proof fn rankings_are_equal(left: Seq<(Seq<char>, u64)>, right: Seq<(Seq<char>, u64)>)
    requires
        forall|row: (Seq<char>, u64)| #[trigger] left.contains(row) <==> right.contains(row),
        forall|i: int, j: int|
            0 <= i < j < left.len() ==> ranks_before(#[trigger] left[i], #[trigger] left[j]),
        forall|i: int, j: int|
            0 <= i < j < right.len() ==> ranks_before(#[trigger] right[i], #[trigger] right[j]),
    ensures
        left == right,
    decreases left.len(),
{
    if left.len() == 0 {
        if right.len() > 0 {
            assert(right.contains(right[0]));
            assert(left.contains(right[0]));
        }
        assert(left =~= right);
    } else {
        assert(left.contains(left[0]));
        assert(right.contains(left[0]));
        let j = choose|j: int| 0 <= j < right.len() && right[j] == left[0];
        assert(right.contains(right[0]));
        assert(left.contains(right[0]));
        let i = choose|i: int| 0 <= i < left.len() && left[i] == right[0];
        if j > 0 {
            rank_is_strict(right[0], right[j]);
            if i > 0 {
                rank_is_strict(left[0], left[i]);
            }
        }
        assert(left[0] == right[0]);
        let left_rest = left.drop_first();
        let right_rest = right.drop_first();
        assert forall|row: (Seq<char>, u64)| #[trigger]
            left_rest.contains(row) implies right_rest.contains(row) by {
            let k = choose|k: int| 0 <= k < left_rest.len() && left_rest[k] == row;
            assert(left[k + 1] == row);
            rank_is_strict(left[0], left[k + 1]);
            assert(left.contains(row));
            assert(right.contains(row));
            let m = choose|m: int| 0 <= m < right.len() && right[m] == row;
            assert(m > 0);
            assert(right_rest[m - 1] == row);
        }
        assert forall|row: (Seq<char>, u64)| #[trigger]
            right_rest.contains(row) implies left_rest.contains(row) by {
            let k = choose|k: int| 0 <= k < right_rest.len() && right_rest[k] == row;
            assert(right[k + 1] == row);
            rank_is_strict(right[0], right[k + 1]);
            assert(right.contains(row));
            assert(left.contains(row));
            let m = choose|m: int| 0 <= m < left.len() && left[m] == row;
            assert(m > 0);
            assert(left_rest[m - 1] == row);
        }
        assert forall|a: int, b: int| 0 <= a < b < left_rest.len() implies ranks_before(
            #[trigger] left_rest[a],
            #[trigger] left_rest[b],
        ) by {
            assert(ranks_before(left[a + 1], left[b + 1]));
        }
        assert forall|a: int, b: int| 0 <= a < b < right_rest.len() implies ranks_before(
            #[trigger] right_rest[a],
            #[trigger] right_rest[b],
        ) by {
            assert(ranks_before(right[a + 1], right[b + 1]));
        }
        rankings_are_equal(left_rest, right_rest);
        assert(left =~= seq![left[0]] + left_rest);
        assert(right =~= seq![right[0]] + right_rest);
    }
}

/// Counts have only one ranking: it does not depend on the order in which they were counted.
pub proof fn ranking_is_unique(counts: Map<Seq<char>, u64>, rows: Seq<(Seq<char>, u64)>)
    requires
        is_ranking(counts, rows),
    ensures
        rows == ranking(counts),
        is_ranking(counts, ranking(counts)),
{
    let chosen = ranking(counts);
    assert(is_ranking(counts, chosen));
    assert forall|row: (Seq<char>, u64)| #[trigger] rows.contains(row) <==> chosen.contains(
        row,
    ) by {}
    rankings_are_equal(rows, chosen);
}

/// Sorts counts: most frequent first, and by name where equally frequent.
pub fn sorted_counts(values: &Counts) -> (rows: Vec<(String, u64)>)
    ensures
        is_ranking(values@, row_views(rows@)),
        row_views(rows@) == ranking(values@),
{
    proof {
        use_type_invariant(values);
    }
    let ghost entries = values.entries@;
    let total: usize = values.entries.len();
    let mut names: Vec<String> = Vec::new();
    let mut counts: Vec<u64> = Vec::new();
    let mut n: usize = 0;
    while n < total
        invariant
            n <= total,
            entries == values.entries@,
            total == entries.len(),
            names@.len() == n,
            counts@.len() == n,
            forall|j: int| 0 <= j < n ==> #[trigger] names@[j] == entries[j].0,
            forall|j: int| 0 <= j < n ==> #[trigger] counts@[j] == entries[j].1,
        decreases total - n,
    {
        names.push(values.entries[n].0.clone());
        counts.push(values.entries[n].1);
        n += 1;
    }
    let order = rank_order(&names, &counts);
    let mut rows: Vec<(String, u64)> = Vec::new();
    let mut i: usize = 0;
    while i < total
        invariant
            i <= total,
            total == entries.len(),
            names@.len() == total,
            counts@.len() == total,
            is_order(texts(names@), counts@, order@, total as int),
            forall|j: int| 0 <= j < total ==> #[trigger] names@[j] == entries[j].0,
            forall|j: int| 0 <= j < total ==> #[trigger] counts@[j] == entries[j].1,
            rows@.len() == i,
            forall|j: int|
                0 <= j < i ==> #[trigger] rows@[j] == entries[order@[j] as int],
        decreases total - i,
    {
        let item: usize = order[i];
        assert(item < total);
        rows.push((names[item].clone(), counts[item]));
        i += 1;
    }
    proof {
        let views = row_views(rows@);
        assert forall|a: int, b: int| 0 <= a < b < views.len() implies ranks_before(
            #[trigger] views[a],
            #[trigger] views[b],
        ) by {
            let left = order@[a] as int;
            let right = order@[b] as int;
            assert(ahead(texts(names@), counts@, left, right));
            assert(rows@[a] == entries[left] && rows@[b] == entries[right]);
            assert(texts(names@)[left] == entries[left].0@);
            assert(texts(names@)[right] == entries[right].0@);
            if texts(names@)[left] == texts(names@)[right] && left < right {
                assert(entries[left].0@ != entries[right].0@);
            }
        }
        assert forall|row: (Seq<char>, u64)| #[trigger] views.contains(row) implies values@.contains_key(
            row.0,
        ) && values@[row.0] == row.1 by {
            let a = choose|a: int| 0 <= a < views.len() && views[a] == row;
            assert(rows@[a] == entries[order@[a] as int]);
            assert(order@[a] < total);
            entry_is_found(entries, order@[a] as int);
        }
        assert forall|row: (Seq<char>, u64)|
            values@.contains_key(row.0) && values@[row.0]
                == row.1 implies #[trigger] views.contains(row) by {
            let at = place(entries, row.0);
            assert(order@.contains(at as usize));
            let a = choose|a: int| 0 <= a < order@.len() && order@[a] == at as usize;
            assert(rows@[a] == entries[at]);
            assert(views[a] == row);
        }
        assert(is_ranking(values@, views));
        ranking_is_unique(values@, views);
    }
    rows
}

/// The counts of rows, added up.
pub open spec fn row_total(rows: Seq<(Seq<char>, u64)>) -> int
    decreases rows.len(),
{
    if rows.len() == 0 {
        0
    } else {
        row_total(rows.drop_last()) + rows.last().1
    }
}

/// How often the names of rows stand in a list, added up.
spec fn name_total(rows: Seq<(Seq<char>, u64)>, keys: Seq<Seq<char>>) -> int
    decreases rows.len(),
{
    if rows.len() == 0 {
        0
    } else {
        name_total(rows.drop_last(), keys) + occurrences(keys, rows.last().0)
    }
}

proof fn nothing_adds_up_to_nothing(rows: Seq<(Seq<char>, u64)>)
    ensures
        name_total(rows, Seq::empty()) == 0,
    decreases rows.len(),
{
    if rows.len() > 0 {
        nothing_adds_up_to_nothing(rows.drop_last());
    }
}

proof fn one_more_adds_one(rows: Seq<(Seq<char>, u64)>, keys: Seq<Seq<char>>, at: int)
    requires
        keys.len() > 0,
        at < rows.len(),
        0 <= at ==> rows[at].0 == keys.last(),
        forall|i: int| 0 <= i < rows.len() && i != at ==> #[trigger] rows[i].0 != keys.last(),
    ensures
        name_total(rows, keys) == name_total(rows, keys.drop_last()) + (if 0 <= at {
            1int
        } else {
            0int
        }),
    decreases rows.len(),
{
    if rows.len() > 0 {
        let last = rows.len() - 1;
        let head = rows.drop_last();
        assert(rows[last] == rows.last());
        assert forall|i: int| 0 <= i < head.len() && i != at implies #[trigger] head[i].0
            != keys.last() by {
            assert(head[i] == rows[i]);
        }
        one_more_adds_one(
            head,
            keys,
            if at == last {
                -1
            } else {
                at
            },
        );
    }
}

proof fn names_add_up(rows: Seq<(Seq<char>, u64)>, keys: Seq<Seq<char>>)
    requires
        forall|i: int, j: int|
            0 <= i < j < rows.len() ==> #[trigger] rows[i].0 != #[trigger] rows[j].0,
        forall|k: int|
            0 <= k < keys.len() ==> exists|i: int|
                0 <= i < rows.len() && rows[i].0 == #[trigger] keys[k],
    ensures
        name_total(rows, keys) == keys.len(),
    decreases keys.len(),
{
    if keys.len() == 0 {
        assert(keys =~= Seq::empty());
        nothing_adds_up_to_nothing(rows);
    } else {
        let head = keys.drop_last();
        assert(keys[keys.len() - 1] == keys.last());
        let at = choose|i: int| 0 <= i < rows.len() && rows[i].0 == keys.last();
        assert forall|i: int| 0 <= i < rows.len() && i != at implies #[trigger] rows[i].0
            != keys.last() by {
            if i < at {
                assert(rows[i].0 != rows[at].0);
            } else {
                assert(rows[at].0 != rows[i].0);
            }
        }
        one_more_adds_one(rows, keys, at);
        assert forall|k: int| 0 <= k < head.len() implies exists|i: int|
            0 <= i < rows.len() && rows[i].0 == #[trigger] head[k] by {
            assert(head[k] == keys[k]);
        }
        names_add_up(rows, head);
    }
}

proof fn counts_are_occurrences(rows: Seq<(Seq<char>, u64)>, keys: Seq<Seq<char>>)
    requires
        forall|i: int| 0 <= i < rows.len() ==> #[trigger] rows[i].1 == occurrences(keys, rows[i].0),
    ensures
        row_total(rows) == name_total(rows, keys),
    decreases rows.len(),
{
    if rows.len() > 0 {
        let head = rows.drop_last();
        assert(rows[rows.len() - 1] == rows.last());
        assert forall|i: int| 0 <= i < head.len() implies #[trigger] head[i].1 == occurrences(
            keys,
            head[i].0,
        ) by {
            assert(head[i] == rows[i]);
        }
        counts_are_occurrences(head, keys);
    }
}

/// The counts of a list add up to its length: every text of it is counted in one row, once.
pub proof fn tallies_add_up(keys: Seq<Seq<char>>, rows: Seq<(Seq<char>, u64)>)
    requires
        keys.len() <= u64::MAX,
        is_ranking(tallies(keys), rows),
    ensures
        row_total(rows) == keys.len(),
{
    assert forall|i: int, j: int| 0 <= i < j < rows.len() implies #[trigger] rows[i].0
        != #[trigger] rows[j].0 by {
        rank_is_strict(rows[i], rows[j]);
        assert(rows.contains(rows[i]));
        assert(rows.contains(rows[j]));
    }
    assert forall|i: int| 0 <= i < rows.len() implies #[trigger] rows[i].1 == occurrences(
        keys,
        rows[i].0,
    ) by {
        assert(rows.contains(rows[i]));
        occurrences_fit(keys, rows[i].0);
    }
    assert forall|k: int| 0 <= k < keys.len() implies exists|i: int|
        0 <= i < rows.len() && rows[i].0 == #[trigger] keys[k] by {
        let row = (keys[k], tallies(keys)[keys[k]]);
        assert(keys.contains(keys[k]));
        assert(rows.contains(row));
        let i = choose|i: int| 0 <= i < rows.len() && rows[i] == row;
        assert(rows[i].0 == keys[k]);
    }
    counts_are_occurrences(rows, keys);
    names_add_up(rows, keys);
}

/// Rows in order of rank with one more row among them.
spec fn placed(rows: Seq<(Seq<char>, u64)>, row: (Seq<char>, u64)) -> Seq<(Seq<char>, u64)>
    decreases rows.len(),
{
    if rows.len() == 0 || ranks_before(row, rows[0]) {
        seq![row] + rows
    } else {
        seq![rows[0]] + placed(rows.drop_first(), row)
    }
}

proof fn placed_row_is_there(
    rows: Seq<(Seq<char>, u64)>,
    row: (Seq<char>, u64),
    other: (Seq<char>, u64),
)
    ensures
        placed(rows, row).contains(other) <==> other == row || rows.contains(other),
    decreases rows.len(),
{
    let all = placed(rows, row);
    if rows.len() == 0 || ranks_before(row, rows[0]) {
        assert(all[0] == row);
        if rows.contains(other) {
            let i = choose|i: int| 0 <= i < rows.len() && rows[i] == other;
            assert(all[i + 1] == other);
        }
        if all.contains(other) && other != row {
            let i = choose|i: int| 0 <= i < all.len() && all[i] == other;
            assert(rows[i - 1] == other);
        }
    } else {
        let rest = placed(rows.drop_first(), row);
        placed_row_is_there(rows.drop_first(), row, other);
        assert(all[0] == rows[0]);
        if rest.contains(other) {
            let i = choose|i: int| 0 <= i < rest.len() && rest[i] == other;
            assert(all[i + 1] == other);
        }
        if rows.drop_first().contains(other) {
            let i = choose|i: int|
                0 <= i < rows.drop_first().len() && rows.drop_first()[i] == other;
            assert(rows[i + 1] == other);
        }
        if rows.contains(other) && other != rows[0] {
            let i = choose|i: int| 0 <= i < rows.len() && rows[i] == other;
            assert(rows.drop_first()[i - 1] == other);
        }
        if all.contains(other) && other != rows[0] {
            let i = choose|i: int| 0 <= i < all.len() && all[i] == other;
            assert(rest[i - 1] == other);
        }
    }
}

proof fn rank_is_transitive(
    first: (Seq<char>, u64),
    second: (Seq<char>, u64),
    third: (Seq<char>, u64),
)
    requires
        ranks_before(first, second),
        ranks_before(second, third),
    ensures
        ranks_before(first, third),
{
    if first.1 == second.1 && second.1 == third.1 {
        text_order_is_transitive(first.0, second.0, third.0);
    }
}

proof fn placed_rows_are_in_order(rows: Seq<(Seq<char>, u64)>, row: (Seq<char>, u64))
    requires
        forall|i: int, j: int|
            0 <= i < j < rows.len() ==> ranks_before(#[trigger] rows[i], #[trigger] rows[j]),
        forall|i: int| 0 <= i < rows.len() ==> #[trigger] rows[i].0 != row.0,
    ensures
        forall|i: int, j: int|
            0 <= i < j < placed(rows, row).len() ==> ranks_before(
                #[trigger] placed(rows, row)[i],
                #[trigger] placed(rows, row)[j],
            ),
    decreases rows.len(),
{
    let all = placed(rows, row);
    if rows.len() == 0 || ranks_before(row, rows[0]) {
        assert forall|i: int, j: int| 0 <= i < j < all.len() implies ranks_before(
            #[trigger] all[i],
            #[trigger] all[j],
        ) by {
            assert(all[j] == rows[j - 1]);
            if i > 0 {
                assert(all[i] == rows[i - 1]);
            } else if j > 1 {
                rank_is_transitive(row, rows[0], rows[j - 1]);
            }
        }
    } else {
        let tail = rows.drop_first();
        let rest = placed(tail, row);
        assert forall|i: int, j: int| 0 <= i < j < tail.len() implies ranks_before(
            #[trigger] tail[i],
            #[trigger] tail[j],
        ) by {
            assert(ranks_before(rows[i + 1], rows[j + 1]));
        }
        assert forall|i: int| 0 <= i < tail.len() implies #[trigger] tail[i].0 != row.0 by {
            assert(rows[i + 1].0 != row.0);
        }
        placed_rows_are_in_order(tail, row);
        assert(rows[0].0 != row.0);
        text_order_is_total(rows[0].0, row.0);
        assert(ranks_before(rows[0], row));
        assert forall|i: int, j: int| 0 <= i < j < all.len() implies ranks_before(
            #[trigger] all[i],
            #[trigger] all[j],
        ) by {
            assert(all[j] == rest[j - 1]);
            if i > 0 {
                assert(all[i] == rest[i - 1]);
            } else {
                assert(rest.contains(rest[j - 1]));
                placed_row_is_there(tail, row, rest[j - 1]);
                if rest[j - 1] != row {
                    let k = choose|k: int| 0 <= k < tail.len() && tail[k] == rest[j - 1];
                    assert(ranks_before(rows[0], rows[k + 1]));
                }
            }
        }
    }
}

proof fn some_ranking(counts: Map<Seq<char>, u64>, names: Seq<Seq<char>>) -> (rows: Seq<
    (Seq<char>, u64),
>)
    requires
        forall|key: Seq<char>| #[trigger] counts.contains_key(key) ==> names.contains(key),
    ensures
        is_ranking(counts, rows),
    decreases names.len(),
{
    if names.len() == 0 {
        let rows = Seq::<(Seq<char>, u64)>::empty();
        assert forall|row: (Seq<char>, u64)| #[trigger] rows.contains(row)
            <==> counts.contains_key(row.0) && counts[row.0] == row.1 by {
            if counts.contains_key(row.0) {
                assert(names.contains(row.0));
            }
        }
        rows
    } else {
        let name = names.last();
        let head = names.drop_last();
        let others = counts.remove(name);
        assert forall|key: Seq<char>| #[trigger] others.contains_key(key) implies head.contains(
            key,
        ) by {
            assert(counts.contains_key(key));
            let i = choose|i: int| 0 <= i < names.len() && names[i] == key;
            assert(head[i] == key);
        }
        let rest = some_ranking(others, head);
        if counts.contains_key(name) {
            let row = (name, counts[name]);
            let rows = placed(rest, row);
            assert forall|i: int| 0 <= i < rest.len() implies #[trigger] rest[i].0 != name by {
                assert(rest.contains(rest[i]));
                assert(others.contains_key(rest[i].0));
            }
            placed_rows_are_in_order(rest, row);
            assert forall|other: (Seq<char>, u64)| #[trigger] rows.contains(other)
                <==> counts.contains_key(other.0) && counts[other.0] == other.1 by {
                placed_row_is_there(rest, row, other);
                if other.0 == name {
                    assert(!others.contains_key(other.0));
                    assert(!rest.contains(other));
                } else {
                    assert(others.contains_key(other.0) == counts.contains_key(other.0));
                    assert(rest.contains(other) <==> others.contains_key(other.0)
                        && others[other.0] == other.1);
                }
            }
            rows
        } else {
            assert(others =~= counts);
            rest
        }
    }
}

/// The counts of any list have a ranking.
pub proof fn tallies_have_a_ranking(keys: Seq<Seq<char>>)
    ensures
        is_ranking(tallies(keys), ranking(tallies(keys))),
{
    let rows = some_ranking(tallies(keys), keys);
    ranking_is_unique(tallies(keys), rows);
}

} // verus!
