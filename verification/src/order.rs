//! Ranking: by count, then by name.
use vstd::prelude::*;

use crate::text::{chars_of, texts};

verus! {

/// Whether `left` comes before `right` in the order of code points, which is also that of their
/// UTF-8 bytes.
pub open spec fn text_less(left: Seq<char>, right: Seq<char>) -> bool
    decreases left.len(),
{
    if right.len() == 0 {
        false
    } else if left.len() == 0 {
        true
    } else if left[0] == right[0] {
        text_less(left.drop_first(), right.drop_first())
    } else {
        left[0] < right[0]
    }
}

/// No text comes before itself, and of two different texts one comes before the other.
pub proof fn text_order_is_total(left: Seq<char>, right: Seq<char>)
    ensures
        text_less(left, right) ==> !text_less(right, left) && left != right,
        text_less(left, right) || text_less(right, left) || left == right,
    decreases left.len(),
{
    if left.len() > 0 && right.len() > 0 {
        text_order_is_total(left.drop_first(), right.drop_first());
        if left[0] == right[0] && left.drop_first() == right.drop_first() {
            assert(left =~= seq![left[0]] + left.drop_first());
            assert(right =~= seq![right[0]] + right.drop_first());
        }
    } else if left.len() == 0 && right.len() == 0 {
        assert(left =~= right);
    }
}

/// The order of texts is transitive.
pub proof fn text_order_is_transitive(first: Seq<char>, second: Seq<char>, third: Seq<char>)
    requires
        text_less(first, second),
        text_less(second, third),
    ensures
        text_less(first, third),
    decreases first.len(),
{
    if first.len() > 0 && first[0] == second[0] && second[0] == third[0] {
        text_order_is_transitive(first.drop_first(), second.drop_first(), third.drop_first());
    }
}

/// Whether a name with its count ranks before another: more comes first, then the name decides.
pub open spec fn ranks_before(left: (Seq<char>, u64), right: (Seq<char>, u64)) -> bool {
    left.1 > right.1 || left.1 == right.1 && text_less(left.0, right.0)
}

/// Tells whether `left` comes before `right`.
fn chars_less(left: &Vec<char>, right: &Vec<char>) -> (less: bool)
    ensures
        less == text_less(left@, right@),
{
    let mut i: usize = 0;
    assert(left@.skip(0) =~= left@);
    assert(right@.skip(0) =~= right@);
    loop
        invariant
            i <= left@.len(),
            i <= right@.len(),
            text_less(left@, right@) == text_less(left@.skip(i as int), right@.skip(i as int)),
        decreases left@.len() - i,
    {
        if i == right.len() {
            return false;
        }
        if i == left.len() {
            return true;
        }
        assert(left@.skip(i as int)[0] == left@[i as int]);
        assert(right@.skip(i as int)[0] == right@[i as int]);
        if left[i] != right[i] {
            return left[i] < right[i];
        }
        assert(left@.skip(i as int).drop_first() =~= left@.skip(i + 1));
        assert(right@.skip(i as int).drop_first() =~= right@.skip(i + 1));
        i += 1;
    }
}

/// Whether item `left` of a list ranks before item `right`: items that are alike keep their places.
pub open spec fn ahead(names: Seq<Seq<char>>, counts: Seq<u64>, left: int, right: int) -> bool {
    ||| ranks_before((names[left], counts[left]), (names[right], counts[right]))
    ||| names[left] == names[right] && counts[left] == counts[right] && left < right
}

proof fn ahead_is_total(names: Seq<Seq<char>>, counts: Seq<u64>, left: int, right: int)
    ensures
        ahead(names, counts, left, right) ==> !ahead(names, counts, right, left) && left != right,
        ahead(names, counts, left, right) || ahead(names, counts, right, left) || left == right,
{
    text_order_is_total(names[left], names[right]);
    text_order_is_total(names[left], names[left]);
}

proof fn ahead_is_transitive(
    names: Seq<Seq<char>>,
    counts: Seq<u64>,
    first: int,
    second: int,
    third: int,
)
    requires
        ahead(names, counts, first, second),
        ahead(names, counts, second, third),
    ensures
        ahead(names, counts, first, third),
{
    if text_less(names[first], names[second]) && text_less(names[second], names[third]) {
        text_order_is_transitive(names[first], names[second], names[third]);
    }
}

/// Whether `order` holds the first `count` items of a list, each once, in their ranking.
pub open spec fn is_order(
    names: Seq<Seq<char>>,
    counts: Seq<u64>,
    order: Seq<usize>,
    count: int,
) -> bool {
    &&& order.len() == count
    &&& forall|i: int| 0 <= i < count ==> #[trigger] order[i] < count
    &&& forall|item: usize| item < count ==> #[trigger] order.contains(item)
    &&& forall|i: int, j: int|
        0 <= i < j < count ==> ahead(names, counts, #[trigger] order[i] as int, #[trigger] order[j] as int)
}

/// Tells whether item `left` ranks before item `right`.
fn is_ahead(
    names: &Vec<Vec<char>>,
    Ghost(views): Ghost<Seq<Seq<char>>>,
    counts: &Vec<u64>,
    left: usize,
    right: usize,
) -> (yes: bool)
    requires
        left < names@.len(),
        right < names@.len(),
        counts@.len() == names@.len(),
        views == names@.map_values(|name: Vec<char>| name@),
    ensures
        yes == ahead(views, counts@, left as int, right as int),
{
    proof {
        text_order_is_total(views[left as int], views[right as int]);
    }
    if counts[left] != counts[right] {
        counts[left] > counts[right]
    } else if chars_less(&names[left], &names[right]) {
        true
    } else if chars_less(&names[right], &names[left]) {
        false
    } else {
        left < right
    }
}

/// Ranks the items of a list: gives their places in order of rank.
pub fn rank_order(names: &Vec<String>, counts: &Vec<u64>) -> (order: Vec<usize>)
    requires
        names@.len() == counts@.len(),
    ensures
        is_order(texts(names@), counts@, order@, names@.len() as int),
{
    let total: usize = names.len();
    let mut name_chars: Vec<Vec<char>> = Vec::new();
    let mut n: usize = 0;
    while n < total
        invariant
            n <= total,
            total == names@.len(),
            name_chars@.len() == n,
            forall|j: int| 0 <= j < n ==> #[trigger] name_chars@[j]@ == names@[j]@,
        decreases total - n,
    {
        name_chars.push(chars_of(names[n].as_str()));
        n += 1;
    }
    let ghost views = texts(names@);
    assert(name_chars@.map_values(|name: Vec<char>| name@) =~= views);
    let mut order: Vec<usize> = Vec::new();
    let mut item: usize = 0;
    while item < total
        invariant
            item <= total,
            total == names@.len(),
            total == counts@.len(),
            total == name_chars@.len(),
            views == texts(names@),
            views == name_chars@.map_values(|name: Vec<char>| name@),
            is_order(views, counts@, order@, item as int),
        decreases total - item,
    {
        let mut low: usize = 0;
        let mut high: usize = order.len();
        while low < high
            invariant
                low <= high <= order@.len(),
                item < total,
                total == counts@.len(),
                total == name_chars@.len(),
                views == name_chars@.map_values(|name: Vec<char>| name@),
                is_order(views, counts@, order@, item as int),
                forall|i: int|
                    0 <= i < low ==> ahead(
                        views,
                        counts@,
                        #[trigger] order@[i] as int,
                        item as int,
                    ),
                forall|i: int|
                    high <= i < order@.len() ==> ahead(
                        views,
                        counts@,
                        item as int,
                        #[trigger] order@[i] as int,
                    ),
            decreases high - low,
        {
            let middle: usize = low + (high - low) / 2;
            let there: usize = order[middle];
            if is_ahead(&name_chars, Ghost(views), counts, item, there) {
                assert forall|i: int| middle <= i < order@.len() implies ahead(
                    views,
                    counts@,
                    item as int,
                    #[trigger] order@[i] as int,
                ) by {
                    if i > middle {
                        ahead_is_transitive(
                            views,
                            counts@,
                            item as int,
                            there as int,
                            order@[i] as int,
                        );
                    }
                }
                high = middle;
            } else {
                proof {
                    ahead_is_total(views, counts@, item as int, there as int);
                }
                assert forall|i: int| 0 <= i <= middle implies ahead(
                    views,
                    counts@,
                    #[trigger] order@[i] as int,
                    item as int,
                ) by {
                    if i < middle {
                        ahead_is_transitive(
                            views,
                            counts@,
                            order@[i] as int,
                            there as int,
                            item as int,
                        );
                    }
                }
                low = middle + 1;
            }
        }
        let ghost before = order@;
        order.insert(low, item);
        assert forall|i: int, j: int| 0 <= i < j < order@.len() implies ahead(
            views,
            counts@,
            #[trigger] order@[i] as int,
            #[trigger] order@[j] as int,
        ) by {
            let old_i = if i < low {
                i
            } else {
                i - 1
            };
            let old_j = if j < low {
                j
            } else {
                j - 1
            };
            if i != low {
                assert(order@[i] == before[old_i]);
            }
            if j != low {
                assert(order@[j] == before[old_j]);
            }
        }
        assert forall|other: usize| other < item + 1 implies #[trigger] order@.contains(other) by {
            if other == item {
                assert(order@[low as int] == item);
            } else {
                assert(before.contains(other));
                let i = choose|i: int| 0 <= i < before.len() && before[i] == other;
                if i < low {
                    assert(order@[i] == other);
                } else {
                    assert(order@[i + 1] == other);
                }
            }
        }
        assert forall|i: int| 0 <= i < order@.len() implies #[trigger] order@[i] < item + 1 by {
            if i < low {
                assert(order@[i] == before[i]);
            } else if i > low {
                assert(order@[i] == before[i - 1]);
            }
        }
        item += 1;
    }
    order
}

/// Items have only one order: two lists of the same items in order of rank are the same.
pub proof fn order_is_unique(
    names: Seq<Seq<char>>,
    counts: Seq<u64>,
    left: Seq<usize>,
    right: Seq<usize>,
)
    requires
        forall|item: usize| #[trigger] left.contains(item) <==> right.contains(item),
        forall|i: int, j: int|
            0 <= i < j < left.len() ==> ahead(
                names,
                counts,
                #[trigger] left[i] as int,
                #[trigger] left[j] as int,
            ),
        forall|i: int, j: int|
            0 <= i < j < right.len() ==> ahead(
                names,
                counts,
                #[trigger] right[i] as int,
                #[trigger] right[j] as int,
            ),
    ensures
        left == right,
    decreases left.len(),
{
    if left.len() == 0 {
        if right.len() > 0 {
            assert(right.contains(right[0]));
            assert(left.contains(right[0]));
        }
        assert(left =~= right);
    } else {
        assert(left.contains(left[0]));
        assert(right.contains(left[0]));
        let j = choose|j: int| 0 <= j < right.len() && right[j] == left[0];
        assert(right.contains(right[0]));
        assert(left.contains(right[0]));
        let i = choose|i: int| 0 <= i < left.len() && left[i] == right[0];
        ahead_is_total(names, counts, left[0] as int, right[0] as int);
        assert(left[0] == right[0]);
        let left_rest = left.drop_first();
        let right_rest = right.drop_first();
        assert forall|item: usize| #[trigger] left_rest.contains(item) implies right_rest.contains(
            item,
        ) by {
            let k = choose|k: int| 0 <= k < left_rest.len() && left_rest[k] == item;
            assert(left[k + 1] == item);
            ahead_is_total(names, counts, left[0] as int, left[k + 1] as int);
            assert(left.contains(item));
            let m = choose|m: int| 0 <= m < right.len() && right[m] == item;
            assert(right_rest[m - 1] == item);
        }
        assert forall|item: usize| #[trigger] right_rest.contains(item) implies left_rest.contains(
            item,
        ) by {
            let k = choose|k: int| 0 <= k < right_rest.len() && right_rest[k] == item;
            assert(right[k + 1] == item);
            ahead_is_total(names, counts, right[0] as int, right[k + 1] as int);
            assert(right.contains(item));
            assert(left.contains(item));
            let m = choose|m: int| 0 <= m < left.len() && left[m] == item;
            assert(left_rest[m - 1] == item);
        }
        assert forall|a: int, b: int| 0 <= a < b < left_rest.len() implies ahead(
            names,
            counts,
            #[trigger] left_rest[a] as int,
            #[trigger] left_rest[b] as int,
        ) by {
            assert(ahead(names, counts, left[a + 1] as int, left[b + 1] as int));
        }
        assert forall|a: int, b: int| 0 <= a < b < right_rest.len() implies ahead(
            names,
            counts,
            #[trigger] right_rest[a] as int,
            #[trigger] right_rest[b] as int,
        ) by {
            assert(ahead(names, counts, right[a + 1] as int, right[b + 1] as int));
        }
        order_is_unique(names, counts, left_rest, right_rest);
        assert(left =~= seq![left[0]] + left_rest);
        assert(right =~= seq![right[0]] + right_rest);
    }
}

} // verus!
