use vstd::prelude::*;

use crate::graph_pm::structure_xml::Node;

verus! {

/// The node names, in order.
pub open spec fn node_ids(nodes: Seq<Node>) -> Seq<Seq<char>> {
    nodes.map_values(|n: Node| n.id@)
}

/// The position of the last occurrence of `name` in `ids`.
pub open spec fn last_position(ids: Seq<Seq<char>>, name: Seq<char>) -> Option<usize>
    decreases ids.len(),
{
    if ids.len() == 0 {
        None
    } else if ids.last() == name {
        Some((ids.len() - 1) as usize)
    } else {
        last_position(ids.drop_last(), name)
    }
}

/// No two entries of a name table share a name.
pub open spec fn names_distinct(entries: Seq<(String, usize)>) -> bool {
    forall|i: int, j: int|
        0 <= i < entries.len() && 0 <= j < entries.len() && i != j ==> #[trigger] entries[i].0@
            != #[trigger] entries[j].0@
}

/// The index that a name table gives `name`.
pub open spec fn lookup(entries: Seq<(String, usize)>, name: Seq<char>) -> Option<usize> {
    if exists|i: int| 0 <= i < entries.len() && #[trigger] entries[i].0@ == name {
        Some(entries[choose|i: int| 0 <= i < entries.len() && #[trigger] entries[i].0@ == name].1)
    } else {
        None
    }
}

/// The names of a name table.
pub open spec fn table_names(entries: Seq<(String, usize)>) -> Seq<Seq<char>> {
    entries.map_values(|e: (String, usize)| e.0@)
}

proof fn lemma_lookup_at(entries: Seq<(String, usize)>, k: int)
    requires
        names_distinct(entries),
        0 <= k < entries.len(),
    ensures
        lookup(entries, entries[k].0@) == Some(entries[k].1),
{
    let name = entries[k].0@;
    assert(entries[k].0@ == name);
    let i = choose|i: int| 0 <= i < entries.len() && #[trigger] entries[i].0@ == name;
    assert(i == k);
}

proof fn lemma_last_position_push(ids: Seq<Seq<char>>, x: Seq<char>, name: Seq<char>)
    ensures
        last_position(ids.push(x), name) == if x == name {
            Some(ids.len() as usize)
        } else {
            last_position(ids, name)
        },
{
    assert(ids.push(x).drop_last() =~= ids);
}

/// The name table of a list of nodes: each name is given the position of
/// its last occurrence, as successive inserts into a map would.
pub fn index_nodes(nodes: &Vec<Node>) -> (table: Vec<(String, usize)>)
    ensures
        names_distinct(table@),
        forall|name: Seq<char>|
            #[trigger] lookup(table@, name) == last_position(node_ids(nodes@), name),
        forall|k: int| 0 <= k < table.len() ==> #[trigger] table@[k].1 < nodes.len(),
        table@.len() == node_ids(nodes@).to_set().len(),
{
    let ghost ids = node_ids(nodes@);
    let mut table: Vec<(String, usize)> = Vec::new();
    let mut idx: usize = 0;
    while idx < nodes.len()
        invariant
            idx <= nodes.len(),
            ids == node_ids(nodes@),
            names_distinct(table@),
            forall|name: Seq<char>|
                #[trigger] lookup(table@, name) == last_position(ids.take(idx as int), name),
            forall|k: int| 0 <= k < table.len() ==> #[trigger] table@[k].1 < idx,
            table_names(table@).to_set() == ids.take(idx as int).to_set(),
        decreases nodes.len() - idx,
    {
        let ghost old_table = table@;
        let name = &nodes[idx].id;
        let ghost x = name@;
        assert(ids[idx as int] == x);
        assert(ids.take(idx + 1) =~= ids.take(idx as int).push(x));
        match name_position(&table, name) {
            Some(pos) => {
                let ghost k = pos as int;
                proof {
                    lemma_lookup_at(old_table, k);
                }
                let key = table[pos].0.clone();
                table.set(pos, (key, idx));
                proof {
                    assert forall|i: int| 0 <= i < table@.len() implies #[trigger] table@[i].0@
                        == old_table[i].0@ && (i != k ==> table@[i] == old_table[i]) by {}
                    assert(table@[k] == (key, idx));
                    assert(names_distinct(table@)) by {
                        assert forall|i: int, j: int|
                            0 <= i < table@.len() && 0 <= j < table@.len() && i != j implies #[trigger] table@[i].0@
                            != #[trigger] table@[j].0@ by {
                            assert(table@[i].0@ == old_table[i].0@);
                            assert(table@[j].0@ == old_table[j].0@);
                        }
                    }
                    assert forall|name: Seq<char>|
                        #[trigger] lookup(table@, name) == last_position(
                            ids.take(idx + 1),
                            name,
                        ) by {
                        lemma_last_position_push(ids.take(idx as int), x, name);
                        if name == x {
                            lemma_lookup_at(table@, k);
                        } else {
                            if exists|i: int| 0 <= i < table@.len() && #[trigger] table@[i].0@ == name {
                                let i = choose|i: int|
                                    0 <= i < table@.len() && #[trigger] table@[i].0@ == name;
                                lemma_lookup_at(table@, i);
                                assert(table@[i].0@ == old_table[i].0@);
                                lemma_lookup_at(old_table, i);
                            } else {
                                assert forall|i: int| 0 <= i < old_table.len() implies #[trigger] old_table[i].0@ != name by {
                                    assert(table@[i].0@ == old_table[i].0@);
                                }
                                assert(lookup(old_table, name) is None);
                                assert(ids.take(idx + 1) == ids.take(idx as int).push(x));
                            }
                        }
                    }
                    assert(table_names(table@) =~= table_names(old_table));
                    assert(ids.take(idx as int).to_set().contains(x)) by {
                        assert(table_names(old_table)[k] == x);
                    }
                    assert(ids.take(idx + 1).to_set() =~= ids.take(idx as int).to_set());
                }
            },
            None => {
                let key = name.clone();
                table.push((key, idx));
                proof {
                    let n = old_table.len() as int;
                    assert forall|i: int, j: int|
                        0 <= i < table@.len() && 0 <= j < table@.len() && i != j implies #[trigger] table@[i].0@
                        != #[trigger] table@[j].0@ by {
                        if i < n && j < n {
                            assert(table@[i] == old_table[i]);
                            assert(table@[j] == old_table[j]);
                        } else if i < n {
                            assert(table@[i] == old_table[i]);
                        } else {
                            assert(table@[j] == old_table[j]);
                        }
                    }
                    assert forall|name: Seq<char>|
                        #[trigger] lookup(table@, name) == last_position(
                            ids.take(idx + 1),
                            name,
                        ) by {
                        lemma_last_position_push(ids.take(idx as int), x, name);
                        if name == x {
                            lemma_lookup_at(table@, n);
                        } else {
                            if exists|i: int| 0 <= i < table@.len() && #[trigger] table@[i].0@ == name {
                                let i = choose|i: int|
                                    0 <= i < table@.len() && #[trigger] table@[i].0@ == name;
                                lemma_lookup_at(table@, i);
                                assert(table@[i] == old_table[i]);
                                lemma_lookup_at(old_table, i);
                            } else {
                                assert forall|i: int| 0 <= i < old_table.len() implies #[trigger] old_table[i].0@ != name by {
                                    assert(table@[i] == old_table[i]);
                                }
                                assert(lookup(old_table, name) is None);
                                assert(ids.take(idx + 1) == ids.take(idx as int).push(x));
                            }
                        }
                    }
                    assert(table_names(table@) =~= table_names(old_table).push(x));
                    assert(table_names(table@).to_set() =~= table_names(old_table).to_set().insert(x)) by {
                        table_names(old_table).lemma_push_to_set_commute(x);
                    }
                    assert(ids.take(idx + 1).to_set() =~= ids.take(idx as int).to_set().insert(x)) by {
                        ids.take(idx as int).lemma_push_to_set_commute(x);
                    }
                }
            },
        }
        idx += 1;
    }
    proof {
        assert(ids.take(nodes.len() as int) =~= ids);
        let names = table_names(table@);
        assert(names.no_duplicates()) by {
            assert forall|i: int, j: int| 0 <= i < names.len() && 0 <= j < names.len() && i != j implies names[i] != names[j] by {
                assert(names[i] == table@[i].0@);
                assert(names[j] == table@[j].0@);
            }
        }
        names.unique_seq_to_set();
    }
    table
}

/// The position in the name table of the entry for `name`.
fn name_position(table: &Vec<(String, usize)>, name: &String) -> (r: Option<usize>)
    ensures
        match r {
            Some(p) => p < table.len() && table@[p as int].0@ == name@,
            None => forall|j: int| 0 <= j < table.len() ==> #[trigger] table@[j].0@ != name@,
        },
{
    let mut i: usize = 0;
    while i < table.len()
        invariant
            i <= table.len(),
            forall|j: int| 0 <= j < i ==> #[trigger] table@[j].0@ != name@,
        decreases table.len() - i,
    {
        if table[i].0 == *name {
            return Some(i);
        }
        i += 1;
    }
    None
}

/// The index that the name table gives `name`.
pub fn node_index(table: &Vec<(String, usize)>, name: &String) -> (r: Option<usize>)
    requires
        names_distinct(table@),
    ensures
        r == lookup(table@, name@),
{
    match name_position(table, name) {
        Some(p) => {
            proof {
                lemma_lookup_at(table@, p as int);
            }
            Some(table[p].1)
        },
        None => None,
    }
}

/// The position found for a name is its last occurrence: the name stands
/// there and at no later position; when none is found it stands nowhere.
pub proof fn law_last_position(ids: Seq<Seq<char>>, name: Seq<char>)
    requires
        ids.len() <= usize::MAX,
    ensures
        last_position(ids, name) matches Some(p) ==> p < ids.len() && ids[p as int] == name && forall|k: int|
            p < k < ids.len() ==> ids[k] != name,
        last_position(ids, name) is None ==> forall|k: int| 0 <= k < ids.len() ==> ids[k] != name,
    decreases ids.len(),
{
    if ids.len() > 0 {
        let rest = ids.drop_last();
        law_last_position(rest, name);
        assert forall|k: int| 0 <= k < rest.len() implies rest[k] == ids[k] by {}
        if ids.last() != name {
            assert(ids[ids.len() - 1] != name);
            match last_position(rest, name) {
                Some(p) => {
                    assert forall|k: int| p < k < ids.len() implies ids[k] != name by {
                        if k < rest.len() {
                            assert(rest[k] != name);
                        }
                    }
                },
                None => {
                    assert forall|k: int| 0 <= k < ids.len() implies ids[k] != name by {
                        if k < rest.len() {
                            assert(rest[k] != name);
                        }
                    }
                },
            }
        }
    }
}

} // verus!
