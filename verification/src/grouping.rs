//! Splits a flat ordered list of task-description strings into named groups.
//!
//! A description of the form `"Group | Item"` belongs to the group named by
//! the trimmed text before the first `|`; its item text is the trimmed text
//! after it.  A description without the delimiter goes, trimmed whole, into
//! the unclassified bucket.  Named groups are kept in lexicographic order;
//! the unclassified bucket always comes after every named group.

use vstd::prelude::*;

use crate::text::{
    delim_idx, find_delim, has_delim, lemma_str_lt_connected, lemma_str_lt_irreflexive,
    lemma_str_lt_transitive, str_eq, str_lt, str_lt_exec, trim_str, trimmed,
};

verus! {

/// One named group: its name and the ordered item texts that carried it.
#[derive(Debug, PartialEq, Eq)]
pub struct GroupEntry {
    pub name: String,
    pub items: Vec<String>,
}

/// The result of grouping: named groups in lexicographic name order, and the
/// unclassified items, which are enumerated after every named group.
#[derive(Debug, PartialEq, Eq)]
pub struct Groups {
    pub named: Vec<GroupEntry>,
    pub unclassified: Vec<String>,
}

/// The group name written before the first delimiter, trimmed.
pub open spec fn task_group_name(t: Seq<char>) -> Seq<char> {
    trimmed(t.subrange(0, delim_idx(t)))
}

/// The text a task contributes to its group: the trimmed text after the
/// first delimiter, or the whole trimmed description when it has none.
pub open spec fn task_payload(t: Seq<char>) -> Seq<char> {
    if has_delim(t) {
        trimmed(t.subrange(delim_idx(t) + 1, t.len() as int))
    } else {
        trimmed(t)
    }
}

/// The items of the group `name`, in input order.
pub open spec fn named_items(tasks: Seq<Seq<char>>, name: Seq<char>) -> Seq<Seq<char>>
    decreases tasks.len(),
{
    if tasks.len() == 0 {
        Seq::empty()
    } else {
        let rest = named_items(tasks.drop_last(), name);
        let t = tasks.last();
        if has_delim(t) && task_group_name(t) == name {
            rest.push(task_payload(t))
        } else {
            rest
        }
    }
}

/// The unclassified items, in input order.
pub open spec fn unclassified_items(tasks: Seq<Seq<char>>) -> Seq<Seq<char>>
    decreases tasks.len(),
{
    if tasks.len() == 0 {
        Seq::empty()
    } else {
        let rest = unclassified_items(tasks.drop_last());
        let t = tasks.last();
        if !has_delim(t) {
            rest.push(task_payload(t))
        } else {
            rest
        }
    }
}

/// Some task names this group.
pub open spec fn is_group_name(tasks: Seq<Seq<char>>, name: Seq<char>) -> bool {
    exists|i: int|
        0 <= i < tasks.len() && has_delim(#[trigger] tasks[i]) && task_group_name(tasks[i]) == name
}

/// Named groups stand in strictly increasing name order.
pub open spec fn names_sorted(named: Seq<GroupEntry>) -> bool {
    forall|i: int, j: int|
        0 <= i < j < named.len() ==> str_lt(
            (#[trigger] named[i].name)@,
            (#[trigger] named[j].name)@,
        )
}

/// The named groups are exactly those of `tasks`: names sorted and unique,
/// one group per name in use, each holding its items in input order.
pub open spec fn named_matches(named: Seq<GroupEntry>, tasks: Seq<Seq<char>>) -> bool {
    &&& names_sorted(named)
    &&& forall|k: int|
        0 <= k < named.len() ==> (#[trigger] named[k].items).deep_view() == named_items(
            tasks,
            named[k].name@,
        )
    &&& forall|k: int| 0 <= k < named.len() ==> is_group_name(tasks, (#[trigger] named[k].name)@)
    &&& forall|name: Seq<char>|
        #[trigger] is_group_name(tasks, name) ==> exists|k: int|
            0 <= k < named.len() && (#[trigger] named[k].name)@ == name
}

impl Groups {
    /// Named groups stand in strictly increasing name order.
    pub open spec fn sorted(self) -> bool {
        names_sorted(self.named@)
    }

    /// This value is exactly the grouping of `tasks`.
    pub open spec fn is_grouping_of(self, tasks: Seq<Seq<char>>) -> bool {
        &&& named_matches(self.named@, tasks)
        &&& self.unclassified.deep_view() == unclassified_items(tasks)
    }
}

/// Sorted names are pairwise distinct.
pub proof fn lemma_sorted_names_distinct(named: Seq<GroupEntry>, i: int, j: int)
    requires
        names_sorted(named),
        0 <= i < named.len(),
        0 <= j < named.len(),
        i != j,
    ensures
        named[i].name@ != named[j].name@,
{
    if i < j {
        lemma_str_lt_irreflexive(named[i].name@);
    } else {
        lemma_str_lt_irreflexive(named[j].name@);
    }
}

/// Appending one task extends the grouping model pointwise.
proof fn lemma_model_push(tasks: Seq<Seq<char>>, t: Seq<char>)
    ensures
        forall|name: Seq<char>|
            #[trigger] named_items(tasks.push(t), name) == if has_delim(t) && task_group_name(t)
                == name {
                named_items(tasks, name).push(task_payload(t))
            } else {
                named_items(tasks, name)
            },
        unclassified_items(tasks.push(t)) == if !has_delim(t) {
            unclassified_items(tasks).push(task_payload(t))
        } else {
            unclassified_items(tasks)
        },
        forall|name: Seq<char>|
            #[trigger] is_group_name(tasks.push(t), name) <==> (is_group_name(tasks, name) || (
            has_delim(t) && task_group_name(t) == name)),
{
    let ext = tasks.push(t);
    assert(ext.drop_last() =~= tasks);
    assert(ext.last() == t);
    assert forall|name: Seq<char>|
        #[trigger] is_group_name(ext, name) <==> (is_group_name(tasks, name) || (has_delim(t)
            && task_group_name(t) == name)) by {
        if is_group_name(tasks, name) {
            let i = choose|i: int|
                0 <= i < tasks.len() && has_delim(#[trigger] tasks[i]) && task_group_name(tasks[i])
                    == name;
            assert(ext[i] == tasks[i]);
        }
        if has_delim(t) && task_group_name(t) == name {
            assert(ext[tasks.len() as int] == t);
        }
        if is_group_name(ext, name) {
            let i = choose|i: int|
                0 <= i < ext.len() && has_delim(#[trigger] ext[i]) && task_group_name(ext[i])
                    == name;
            if i < tasks.len() {
                assert(tasks[i] == ext[i]);
            }
        }
    }
}

/// Groups an ordered list of task descriptions by their `|` prefix, as the
/// interactive menu presents them.
pub fn group_task_descriptions(tasks: &Vec<String>) -> (g: Groups)
    ensures
        g.is_grouping_of(tasks.deep_view()),
{
    let ghost all: Seq<Seq<char>> = tasks.deep_view();
    let mut named: Vec<GroupEntry> = Vec::new();
    let mut unclassified: Vec<String> = Vec::new();
    let mut k: usize = 0;
    while k < tasks.len()
        invariant
            k <= tasks.len(),
            all == tasks.deep_view(),
            all.len() == tasks@.len(),
            named_matches(named@, all.subrange(0, k as int)),
            unclassified.deep_view() == unclassified_items(all.subrange(0, k as int)),
        decreases tasks.len() - k,
    {
        let ghost pre = all.subrange(0, k as int);
        let ghost post = all.subrange(0, k as int + 1);
        let task: &String = &tasks[k];
        proof {
            assert(all[k as int] == task@);
            assert(post =~= pre.push(task@));
            lemma_model_push(pre, task@);
        }
        let len = task.as_str().unicode_len();
        match find_delim(task.as_str()) {
            Some(d) => {
                proof {
                    crate::text::lemma_delim_idx(task@);
                    assert(has_delim(task@));
                    assert(d == delim_idx(task@));
                    assert(d < len);
                }
                let name = trim_str(task.as_str().substring_char(0, d));
                let item = trim_str(task.as_str().substring_char(d + 1, len));
                proof {
                    assert(name@ == task_group_name(task@));
                    assert(item@ == task_payload(task@));
                }
                insert_named_item(&mut named, name, item, Ghost(pre), Ghost(task@));
                proof {
                    assert(unclassified_items(post) == unclassified_items(pre));
                }
            },
            None => {
                proof {
                    assert(task_payload(task@) == trimmed(task@));
                }
                unclassified.push(String::from_str(trim_str(task.as_str())));
                proof {
                    assert(unclassified.deep_view() =~= unclassified_items(post));
                    assert forall|q: int| 0 <= q < named@.len() implies (
                    #[trigger] named@[q].items).deep_view() == named_items(post, named@[q].name@)
                        by {}
                }
            },
        }
        k = k + 1;
    }
    proof {
        assert(all.subrange(0, all.len() as int) =~= all);
    }
    Groups { named, unclassified }
}

/// Adds one classified item to its group, creating the group at its sorted
/// position on first use.
fn insert_named_item(
    named: &mut Vec<GroupEntry>,
    name: &str,
    item: &str,
    Ghost(pre): Ghost<Seq<Seq<char>>>,
    Ghost(t): Ghost<Seq<char>>,
)
    requires
        has_delim(t),
        name@ == task_group_name(t),
        item@ == task_payload(t),
        named_matches(old(named)@, pre),
    ensures
        named_matches(final(named)@, pre.push(t)),
{
    let ghost post = pre.push(t);
    proof {
        lemma_model_push(pre, t);
    }
    let mut p: usize = 0;
    while p < named.len() && str_lt_exec(named[p].name.as_str(), name)
        invariant
            p <= named@.len(),
            forall|q: int| 0 <= q < p ==> str_lt((#[trigger] named@[q].name)@, name@),
            named_matches(named@, pre),
        decreases named@.len() - p,
    {
        p = p + 1;
    }
    let ghost old_named = named@;
    if p < named.len() && str_eq(named[p].name.as_str(), name) {
        let mut entry = named.remove(p);
        entry.items.push(String::from_str(item));
        named.insert(p, entry);
        proof {
            assert(named@ =~= old_named.update(p as int, named@[p as int]));
            assert(named@[p as int].name@ == name@);
            assert(named@[p as int].items.deep_view() =~= named_items(post, name@));
            assert forall|q: int| 0 <= q < named@.len() implies (
            #[trigger] named@[q].items).deep_view() == named_items(post, named@[q].name@) by {
                if q != p {
                    assert(named@[q] == old_named[q]);
                    lemma_sorted_names_distinct(old_named, q, p as int);
                }
            }
            assert forall|nm: Seq<char>| #[trigger] is_group_name(post, nm) implies exists|k: int|
                0 <= k < named@.len() && (#[trigger] named@[k].name)@ == nm by {
                if is_group_name(pre, nm) {
                    let k = choose|k: int|
                        0 <= k < old_named.len() && (#[trigger] old_named[k].name)@ == nm;
                    assert(named@[k].name@ == nm);
                } else {
                    assert(named@[p as int].name@ == nm);
                }
            }
        }
    } else {
        proof {
            if p < named@.len() {
                if !str_lt(name@, named@[p as int].name@) {
                    lemma_str_lt_connected(named@[p as int].name@, name@);
                    assert(false);
                }
            }
            assert(p == named@.len() || str_lt(name@, named@[p as int].name@));
            assert(named_items(pre, name@) =~= Seq::<Seq<char>>::empty()) by {
                if is_group_name(pre, name@) {
                    let k = choose|k: int|
                        0 <= k < old_named.len() && (#[trigger] old_named[k].name)@ == name@;
                    if k < p {
                        lemma_str_lt_irreflexive(name@);
                    } else {
                        lemma_str_lt_irreflexive(name@);
                        if k > p {
                            lemma_str_lt_transitive(name@, old_named[p as int].name@, old_named[k].name@);
                        }
                    }
                    assert(false);
                } else {
                    lemma_named_items_absent(pre, name@);
                }
            }
        }
        let mut items: Vec<String> = Vec::new();
        items.push(String::from_str(item));
        let entry = GroupEntry { name: String::from_str(name), items };
        named.insert(p, entry);
        proof {
            assert(named@ =~= old_named.insert(p as int, named@[p as int]));
            assert(named@[p as int].name@ == name@);
            assert(named@[p as int].items.deep_view() =~= named_items(post, name@));
            assert forall|i: int, j: int| 0 <= i < j < named@.len() implies str_lt(
                (#[trigger] named@[i].name)@,
                (#[trigger] named@[j].name)@,
            ) by {
                if j < p {
                } else if i < p && j == p {
                    assert(named@[i] == old_named[i]);
                } else if i < p && j > p {
                    assert(named@[i] == old_named[i]);
                    assert(named@[j] == old_named[j - 1]);
                } else if i == p {
                    assert(named@[j] == old_named[j - 1]);
                    if j - 1 > p {
                        lemma_str_lt_transitive(
                            name@,
                            old_named[p as int].name@,
                            old_named[j - 1].name@,
                        );
                    }
                } else {
                    assert(named@[i] == old_named[i - 1]);
                    assert(named@[j] == old_named[j - 1]);
                }
            }
            assert forall|q: int| 0 <= q < named@.len() implies (
            #[trigger] named@[q].items).deep_view() == named_items(post, named@[q].name@) by {
                if q < p {
                    assert(named@[q] == old_named[q]);
                    assert(named@[q].name@ != name@) by {
                        lemma_str_lt_irreflexive(name@);
                    }
                } else if q > p {
                    assert(named@[q] == old_named[q - 1]);
                    assert(named@[q].name@ != name@) by {
                        lemma_str_lt_irreflexive(name@);
                        if q - 1 > p {
                            lemma_str_lt_transitive(
                                name@,
                                old_named[p as int].name@,
                                old_named[q - 1].name@,
                            );
                        }
                    }
                }
            }
            assert forall|q: int| 0 <= q < named@.len() implies is_group_name(
                post,
                (#[trigger] named@[q].name)@,
            ) by {
                if q < p {
                    assert(named@[q] == old_named[q]);
                } else if q > p {
                    assert(named@[q] == old_named[q - 1]);
                }
            }
            assert forall|nm: Seq<char>| #[trigger] is_group_name(post, nm) implies exists|k: int|
                0 <= k < named@.len() && (#[trigger] named@[k].name)@ == nm by {
                if is_group_name(pre, nm) {
                    let k = choose|k: int|
                        0 <= k < old_named.len() && (#[trigger] old_named[k].name)@ == nm;
                    if k < p {
                        assert(named@[k].name@ == nm);
                    } else {
                        assert(named@[k + 1].name@ == nm);
                    }
                } else {
                    assert(named@[p as int].name@ == nm);
                }
            }
        }
    }
}

/// A group some task names holds at least that task's item.
pub proof fn lemma_named_items_present(tasks: Seq<Seq<char>>, name: Seq<char>)
    requires
        is_group_name(tasks, name),
    ensures
        named_items(tasks, name).len() >= 1,
    decreases tasks.len(),
{
    let init = tasks.drop_last();
    let t = tasks.last();
    if has_delim(t) && task_group_name(t) == name {
    } else {
        let i = choose|i: int|
            0 <= i < tasks.len() && has_delim(#[trigger] tasks[i]) && task_group_name(tasks[i])
                == name;
        assert(init[i] == tasks[i]);
        assert(is_group_name(init, name));
        lemma_named_items_present(init, name);
    }
}

/// A task list with a delimiter-free entry has an unclassified item.
pub proof fn lemma_unclassified_present(tasks: Seq<Seq<char>>, i: int)
    requires
        0 <= i < tasks.len(),
        !has_delim(tasks[i]),
    ensures
        unclassified_items(tasks).len() >= 1,
    decreases tasks.len(),
{
    if i + 1 < tasks.len() {
        let init = tasks.drop_last();
        assert(init[i] == tasks[i]);
        lemma_unclassified_present(init, i);
    }
}

/// A name no task uses has no items.
proof fn lemma_named_items_absent(tasks: Seq<Seq<char>>, name: Seq<char>)
    requires
        !is_group_name(tasks, name),
    ensures
        named_items(tasks, name) == Seq::<Seq<char>>::empty(),
    decreases tasks.len(),
{
    if tasks.len() > 0 {
        let init = tasks.drop_last();
        assert(!is_group_name(init, name)) by {
            if is_group_name(init, name) {
                let i = choose|i: int|
                    0 <= i < init.len() && has_delim(#[trigger] init[i]) && task_group_name(
                        init[i],
                    ) == name;
                assert(tasks[i] == init[i]);
            }
        }
        lemma_named_items_absent(init, name);
        assert(!(has_delim(tasks.last()) && task_group_name(tasks.last()) == name)) by {
            if has_delim(tasks.last()) && task_group_name(tasks.last()) == name {
                assert(tasks[tasks.len() - 1] == tasks.last());
            }
        }
    }
}

/// A flattening of empty sequences is empty.
proof fn lemma_flatten_empties<A>(s: Seq<Seq<A>>)
    requires
        forall|i: int| 0 <= i < s.len() ==> (#[trigger] s[i]).len() == 0,
    ensures
        s.flatten().len() == 0,
    decreases s.len(),
{
    if s.len() > 0 {
        assert(s.first().len() == 0);
        assert(forall|i: int|
            0 <= i < s.drop_first().len() ==> (#[trigger] s.drop_first()[i]).len() == 0);
        lemma_flatten_empties(s.drop_first());
    }
}

/// Appending one element inside one inner sequence adds exactly that
/// element to the multiset of the flattening.
proof fn lemma_flatten_update_push<A>(s: Seq<Seq<A>>, k: int, x: A)
    requires
        0 <= k < s.len(),
    ensures
        s.update(k, s[k].push(x)).flatten().to_multiset() =~= s.flatten().to_multiset().insert(x),
{
    broadcast use vstd::seq_lib::group_to_multiset_ensures;

    let a = s.subrange(0, k);
    let mid = seq![s[k]];
    let mid2 = seq![s[k].push(x)];
    let b = s.subrange(k + 1, s.len() as int);
    let s2 = s.update(k, s[k].push(x));
    assert(s =~= (a + mid) + b);
    assert(s2 =~= (a + mid2) + b);
    vstd::seq_lib::lemma_flatten_concat(a + mid, b);
    vstd::seq_lib::lemma_flatten_concat(a, mid);
    vstd::seq_lib::lemma_flatten_concat(a + mid2, b);
    vstd::seq_lib::lemma_flatten_concat(a, mid2);
    mid.lemma_flatten_one_element();
    mid2.lemma_flatten_one_element();
    assert(s.flatten() =~= (a.flatten() + s[k]) + b.flatten());
    assert(s2.flatten() =~= (a.flatten() + s[k].push(x)) + b.flatten());
    vstd::seq_lib::lemma_multiset_commutative(a.flatten() + s[k], b.flatten());
    vstd::seq_lib::lemma_multiset_commutative(a.flatten(), s[k]);
    vstd::seq_lib::lemma_multiset_commutative(a.flatten() + s[k].push(x), b.flatten());
    vstd::seq_lib::lemma_multiset_commutative(a.flatten(), s[k].push(x));
    assert(s[k].push(x).to_multiset() =~= s[k].to_multiset().insert(x));
}

/// The named item sequences, one per name in order, paired with the
/// unclassified items, hold together exactly the multiset of the trimmed
/// payloads of the input.
proof fn lemma_partition_rec(names: Seq<Seq<char>>, tasks: Seq<Seq<char>>)
    requires
        forall|i: int, j: int| 0 <= i < j < names.len() ==> names[i] != names[j],
        forall|nm: Seq<char>| #[trigger] is_group_name(tasks, nm) ==> names.contains(nm),
    ensures
        (Seq::new(names.len(), |k: int| named_items(tasks, names[k])).flatten()
            + unclassified_items(tasks)).to_multiset() =~= tasks.map_values(
            (|t: Seq<char>| task_payload(t)),
        ).to_multiset(),
    decreases tasks.len(),
{
    broadcast use vstd::seq_lib::group_to_multiset_ensures;

    let groups_seq = Seq::new(names.len(), |k: int| named_items(tasks, names[k]));
    let payloads = tasks.map_values((|t: Seq<char>| task_payload(t)));
    if tasks.len() == 0 {
        assert(forall|i: int|
            0 <= i < groups_seq.len() ==> (#[trigger] groups_seq[i]).len() == 0);
        lemma_flatten_empties(groups_seq);
        assert(groups_seq.flatten() + unclassified_items(tasks) =~= Seq::<Seq<char>>::empty());
        assert(payloads =~= Seq::<Seq<char>>::empty());
    } else {
        let init = tasks.drop_last();
        let t = tasks.last();
        assert(tasks =~= init.push(t));
        lemma_model_push(init, t);
        assert forall|nm: Seq<char>| #[trigger] is_group_name(init, nm) implies names.contains(
            nm,
        ) by {
            assert(is_group_name(init.push(t), nm));
            assert(is_group_name(tasks, nm));
        }
        lemma_partition_rec(names, init);
        let gs_init = Seq::new(names.len(), |k: int| named_items(init, names[k]));
        let payloads_init = init.map_values((|t: Seq<char>| task_payload(t)));
        assert(payloads =~= payloads_init.push(task_payload(t)));
        assert(payloads.to_multiset() =~= payloads_init.to_multiset().insert(task_payload(t)));
        if has_delim(t) {
            let nm = task_group_name(t);
            assert(is_group_name(tasks, nm)) by {
                assert(tasks[tasks.len() - 1] == t);
            }
            assert(names.contains(nm));
            let k0 = choose|k0: int| 0 <= k0 < names.len() && names[k0] == nm;
            assert(groups_seq =~= gs_init.update(k0, gs_init[k0].push(task_payload(t)))) by {
                assert forall|k: int| 0 <= k < names.len() implies groups_seq[k] == gs_init.update(
                    k0,
                    gs_init[k0].push(task_payload(t)),
                )[k] by {
                    if k != k0 {
                        assert(names[k] != nm);
                        assert(named_items(tasks, names[k]) == named_items(init, names[k]));
                    }
                }
            }
            lemma_flatten_update_push(gs_init, k0, task_payload(t));
            assert(unclassified_items(tasks) == unclassified_items(init));
            vstd::seq_lib::lemma_multiset_commutative(
                groups_seq.flatten(),
                unclassified_items(tasks),
            );
            vstd::seq_lib::lemma_multiset_commutative(
                gs_init.flatten(),
                unclassified_items(init),
            );
        } else {
            assert(groups_seq =~= gs_init) by {
                assert forall|k: int| 0 <= k < names.len() implies groups_seq[k] == gs_init[k] by {
                    assert(named_items(tasks, names[k]) == named_items(init, names[k]));
                }
            }
            assert(unclassified_items(tasks) == unclassified_items(init).push(task_payload(t)));
            vstd::seq_lib::lemma_multiset_commutative(
                groups_seq.flatten(),
                unclassified_items(tasks),
            );
            vstd::seq_lib::lemma_multiset_commutative(
                gs_init.flatten(),
                unclassified_items(init),
            );
            assert(unclassified_items(tasks).to_multiset() =~= unclassified_items(
                init,
            ).to_multiset().insert(task_payload(t)));
        }
    }
}

/// Every input description lands, trimmed, in exactly one group: the item
/// sequences of all groups, taken together with the unclassified items,
/// hold exactly the multiset of the trimmed payloads of the input, and each
/// group's own sequence keeps its items in input order.
pub proof fn lemma_grouping_partitions(g: Groups, tasks: Seq<Seq<char>>)
    requires
        g.is_grouping_of(tasks),
    ensures
        (g.named@.map_values((|e: GroupEntry| e.items.deep_view())).flatten()
            + g.unclassified.deep_view()).to_multiset() =~= tasks.map_values(
            (|t: Seq<char>| task_payload(t)),
        ).to_multiset(),
        forall|k: int|
            0 <= k < g.named@.len() ==> (#[trigger] g.named@[k].items).deep_view() == named_items(
                tasks,
                g.named@[k].name@,
            ),
{
    let names = Seq::new(g.named@.len(), |k: int| g.named@[k].name@);
    assert forall|i: int, j: int| 0 <= i < j < names.len() implies names[i] != names[j] by {
        lemma_sorted_names_distinct(g.named@, i, j);
    }
    assert forall|nm: Seq<char>| #[trigger] is_group_name(tasks, nm) implies names.contains(
        nm,
    ) by {
        let k = choose|k: int| 0 <= k < g.named@.len() && (#[trigger] g.named@[k].name)@ == nm;
        assert(names[k] == nm);
    }
    lemma_partition_rec(names, tasks);
    assert(g.named@.map_values((|e: GroupEntry| e.items.deep_view())) =~= Seq::new(
        names.len(),
        |k: int| named_items(tasks, names[k]),
    ));
}

} // verus!
