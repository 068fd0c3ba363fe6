//! Grouping records by namespace.
//!
//! A flat list of records becomes a tree with one node for each namespace
//! that has a record in it or below it. A node holds the records of its
//! namespace in the order of the list, and the nodes of the namespaces one
//! level down, in the order in which the list first reaches each of them.

use crate::api::Api;
use crate::sequences::{
    distinct, lemma_distinct_contains, lemma_distinct_no_duplicates, lemma_distinct_push,
    lemma_filter_member, lemma_filter_refines, lemma_filter_take_step,
};
use crate::types::{find_name, names};
use vstd::prelude::*;

verus! {

/// The mathematical value of a [`NamespaceEntries`]: the records of one
/// namespace, and the namespaces one level down.
pub struct NsTree {
    pub entries: Seq<Api>,
    pub children: Seq<NsChild>,
}

/// A namespace one level down: its last segment and its tree.
pub struct NsChild {
    pub name: Seq<char>,
    pub tree: NsTree,
}

/// The records that a sequence of references points to.
pub open spec fn records(refs: Seq<&Api>) -> Seq<Api> {
    Seq::new(refs.len(), |i: int| *refs[i])
}

/// Whether a record lives in the namespace `path`.
pub open spec fn at(path: Seq<Seq<char>>) -> spec_fn(Api) -> bool {
    |a: Api| a.ns@ == path
}

/// Whether a record lives in the namespace `path` or in one below it.
pub open spec fn under(path: Seq<Seq<char>>) -> spec_fn(Api) -> bool {
    |a: Api| path.is_prefix_of(a.ns@)
}

/// Whether a record lives in a namespace below `path`.
pub open spec fn below(path: Seq<Seq<char>>) -> spec_fn(Api) -> bool {
    |a: Api| path.len() < a.ns@.len() && path.is_prefix_of(a.ns@)
}

/// The segment of a record's namespace at `depth`.
pub open spec fn segment_at(depth: nat) -> spec_fn(Api) -> Seq<char> {
    |a: Api| a.ns@[depth as int]
}

/// The records of the namespace `path`, in the order of `apis`.
pub open spec fn entries_at(apis: Seq<Api>, path: Seq<Seq<char>>) -> Seq<Api> {
    apis.filter(at(path))
}

/// The last segments of the namespaces one level below `path` that have a
/// record in them or below them, in the order in which `apis` first reaches
/// each.
pub open spec fn child_segments(apis: Seq<Api>, path: Seq<Seq<char>>) -> Seq<Seq<char>> {
    distinct(apis.filter(below(path)).map_values(segment_at(path.len())))
}

/// The length of the longest namespace among `apis`.
pub open spec fn deepest(apis: Seq<Api>) -> nat
    decreases apis.len(),
{
    if apis.len() == 0 {
        0
    } else {
        let before = deepest(apis.drop_last());
        if apis.last().ns@.len() > before {
            apis.last().ns@.len()
        } else {
            before
        }
    }
}

/// The tree of the namespace `path`: its own records, and the trees of the
/// namespaces one level down. No namespace is longer than the longest among
/// `apis`, which is where the descent ends.
pub open spec fn group(apis: Seq<Api>, path: Seq<Seq<char>>) -> NsTree
    decreases deepest(apis) - path.len(),
{
    let segments = child_segments(apis, path);
    NsTree {
        entries: entries_at(apis, path),
        children: Seq::new(
            segments.len(),
            |i: int|
                NsChild {
                    name: segments[i],
                    tree: if path.len() < deepest(apis) {
                        group(apis, path.push(segments[i]))
                    } else {
                        NsTree { entries: Seq::empty(), children: Seq::empty() }
                    },
                },
        ),
    }
}

/// No namespace among `apis` is longer than `deepest(apis)`.
pub proof fn lemma_deepest(apis: Seq<Api>, i: int)
    requires
        0 <= i < apis.len(),
    ensures
        apis[i].ns@.len() <= deepest(apis),
    decreases apis.len(),
{
    if i < apis.len() - 1 {
        lemma_deepest(apis.drop_last(), i);
    }
}

/// A record lives under `path` followed by `name` exactly if it lives below
/// `path` and its next segment is `name`.
pub proof fn lemma_under_child(a: Api, path: Seq<Seq<char>>, name: Seq<char>)
    ensures
        under(path.push(name))(a) <==> below(path)(a) && segment_at(path.len())(a) == name,
{
    let longer = path.push(name);
    if under(longer)(a) {
        assert(longer =~= a.ns@.subrange(0, longer.len() as int));
        assert(a.ns@[path.len() as int] == longer[path.len() as int]);
        assert(path =~= a.ns@.subrange(0, path.len() as int)) by {
            assert forall|k: int| 0 <= k < path.len() implies path[k] == a.ns@[k] by {
                assert(longer[k] == a.ns@.subrange(0, longer.len() as int)[k]);
            }
        }
    }
    if below(path)(a) && segment_at(path.len())(a) == name {
        assert(path =~= a.ns@.subrange(0, path.len() as int));
        assert(longer =~= a.ns@.subrange(0, longer.len() as int)) by {
            assert forall|k: int| 0 <= k < longer.len() implies longer[k] == a.ns@[k] by {
                if k < path.len() {
                    assert(path[k] == a.ns@.subrange(0, path.len() as int)[k]);
                }
            }
        }
    }
}

/// What the record at `i` adds to the records under `path` followed by
/// `name`, where it lives under `path`: itself if it lives below `path` and
/// its next segment is `name`, else nothing.
proof fn lemma_kid_step(list: Seq<Api>, i: int, path: Seq<Seq<char>>, name: Seq<char>)
    requires
        0 <= i < list.len(),
    ensures
        list.take(i + 1).filter(under(path.push(name))) == if below(path)(list[i]) && segment_at(
            path.len(),
        )(list[i]) == name {
            list.take(i).filter(under(path.push(name))).push(list[i])
        } else {
            list.take(i).filter(under(path.push(name)))
        },
{
    lemma_under_child(list[i], path, name);
    lemma_filter_take_step(list, under(path.push(name)), i);
}

/// A sequence of which every element meets a condition is left whole by the
/// filter for that condition.
proof fn lemma_filter_keeps_all(apis: Seq<Api>, keep: spec_fn(Api) -> bool)
    requires
        forall|i: int| 0 <= i < apis.len() ==> keep(#[trigger] apis[i]),
    ensures
        apis.filter(keep) == apis,
    decreases apis.len(),
{
    reveal(Seq::filter);
    if apis.len() > 0 {
        assert forall|i: int| 0 <= i < apis.drop_last().len() implies keep(
            #[trigger] apis.drop_last()[i],
        ) by {
            assert(apis.drop_last()[i] == apis[i]);
        }
        lemma_filter_keeps_all(apis.drop_last(), keep);
        assert(keep(apis[apis.len() - 1]));
        assert(apis.drop_last().push(apis.last()) =~= apis);
    }
}

/// Every child segment has a record under it.
pub proof fn lemma_child_has_content(apis: Seq<Api>, path: Seq<Seq<char>>, i: int)
    requires
        0 <= i < child_segments(apis, path).len(),
    ensures
        apis.filter(under(path.push(child_segments(apis, path)[i]))).len() > 0,
        path.len() < deepest(apis),
{
    let name = child_segments(apis, path)[i];
    let strict = apis.filter(below(path));
    let segments = strict.map_values(segment_at(path.len()));
    assert(child_segments(apis, path).contains(name));
    lemma_distinct_contains(segments, name);
    let k = choose|k: int| 0 <= k < segments.len() && segments[k] == name;
    let a = strict[k];
    lemma_filter_member(apis, below(path), k);
    lemma_under_child(a, path, name);
    let m = choose|m: int| 0 <= m < apis.len() && apis[m] == a;
    Seq::lemma_filter_contains(apis, under(path.push(name)), m);
    lemma_deepest(apis, m);
}

/// The node of a namespace holds, for each namespace one level down that
/// has content, the tree of that namespace.
pub proof fn lemma_group_children(apis: Seq<Api>, path: Seq<Seq<char>>, i: int)
    requires
        0 <= i < child_segments(apis, path).len(),
    ensures
        group(apis, path).children.len() == child_segments(apis, path).len(),
        group(apis, path).children[i] == (NsChild {
            name: child_segments(apis, path)[i],
            tree: group(apis, path.push(child_segments(apis, path)[i])),
        }),
{
    lemma_child_has_content(apis, path, i);
}

/// Whether any record lives in the namespace `path` or below it.
pub open spec fn has_content(apis: Seq<Api>, path: Seq<Seq<char>>) -> bool {
    exists|i: int| 0 <= i < apis.len() && under(path)(#[trigger] apis[i])
}

/// The tree of the namespace one level down whose last segment is `name`, if
/// the tree has one.
pub open spec fn child_named(tree: NsTree, name: Seq<char>) -> Option<NsTree> {
    if exists|i: int| 0 <= i < tree.children.len() && (#[trigger] tree.children[i]).name == name {
        let i = choose|i: int|
            0 <= i < tree.children.len() && (#[trigger] tree.children[i]).name == name;
        Some(tree.children[i].tree)
    } else {
        None
    }
}

/// The node that is reached from the root of `tree` by following `path`
/// segment by segment, if there is one.
pub open spec fn node_at(tree: NsTree, path: Seq<Seq<char>>) -> Option<NsTree>
    decreases path.len(),
{
    if path.len() == 0 {
        Some(tree)
    } else {
        match child_named(tree, path.first()) {
            Some(child) => node_at(child, path.drop_first()),
            None => None,
        }
    }
}

/// A namespace one level below `path` has a node exactly if a record lives in
/// it or below it.
pub proof fn lemma_child_segments(apis: Seq<Api>, path: Seq<Seq<char>>, name: Seq<char>)
    ensures
        child_segments(apis, path).contains(name) <==> has_content(apis, path.push(name)),
        child_segments(apis, path).no_duplicates(),
{
    let strict = apis.filter(below(path));
    let segments = strict.map_values(segment_at(path.len()));
    lemma_distinct_contains(segments, name);
    lemma_distinct_no_duplicates(segments);
    if child_segments(apis, path).contains(name) {
        let k = choose|k: int| 0 <= k < segments.len() && segments[k] == name;
        lemma_filter_member(apis, below(path), k);
        lemma_under_child(strict[k], path, name);
        let m = choose|m: int| 0 <= m < apis.len() && apis[m] == strict[k];
        assert(under(path.push(name))(apis[m]));
    }
    if has_content(apis, path.push(name)) {
        let m = choose|m: int| 0 <= m < apis.len() && under(path.push(name))(#[trigger] apis[m]);
        lemma_under_child(apis[m], path, name);
        Seq::lemma_filter_contains(apis, below(path), m);
        let k = choose|k: int| 0 <= k < strict.len() && strict[k] == apis[m];
        assert(segments[k] == name);
    }
}

/// The node of the namespace `path` has a node for the namespace one level
/// down called `name` exactly if a record lives in that namespace or below
/// it, and that node is the tree of that namespace.
pub proof fn lemma_child_named(apis: Seq<Api>, path: Seq<Seq<char>>, name: Seq<char>)
    ensures
        child_named(group(apis, path), name) == if has_content(apis, path.push(name)) {
            Some(group(apis, path.push(name)))
        } else {
            None
        },
{
    let tree = group(apis, path);
    let segments = child_segments(apis, path);
    lemma_child_segments(apis, path, name);
    if segments.contains(name) {
        let k = choose|k: int| 0 <= k < segments.len() && segments[k] == name;
        assert(tree.children[k].name == name);
        let i = choose|i: int|
            0 <= i < tree.children.len() && (#[trigger] tree.children[i]).name == name;
        assert(segments[i] == name);
        lemma_child_has_content(apis, path, i);
    } else {
        if exists|i: int| 0 <= i < tree.children.len() && (#[trigger] tree.children[i]).name == name {
            let i = choose|i: int|
                0 <= i < tree.children.len() && (#[trigger] tree.children[i]).name == name;
            assert(segments[i] == name);
        }
    }
}

/// A record that lives under a namespace lives under every namespace above
/// it.
pub proof fn lemma_under_prefix(a: Api, path: Seq<Seq<char>>, more: Seq<Seq<char>>)
    requires
        under(path + more)(a),
    ensures
        under(path)(a),
{
    let longer = path + more;
    assert(longer =~= a.ns@.subrange(0, longer.len() as int));
    assert(path =~= a.ns@.subrange(0, path.len() as int)) by {
        assert forall|k: int| 0 <= k < path.len() implies path[k] == a.ns@[k] by {
            assert(longer[k] == a.ns@.subrange(0, longer.len() as int)[k]);
        }
    }
}

proof fn lemma_node_at(apis: Seq<Api>, base: Seq<Seq<char>>, rest: Seq<Seq<char>>)
    ensures
        node_at(group(apis, base), rest) == if rest.len() == 0 || has_content(apis, base + rest) {
            Some(group(apis, base + rest))
        } else {
            None
        },
    decreases rest.len(),
{
    if rest.len() == 0 {
        assert(base + rest =~= base);
    } else {
        let next = base.push(rest.first());
        lemma_child_named(apis, base, rest.first());
        assert(next + rest.drop_first() =~= base + rest);
        if has_content(apis, next) {
            lemma_node_at(apis, next, rest.drop_first());
            if rest.len() == 1 {
                assert(next =~= base + rest);
            }
        } else {
            if has_content(apis, base + rest) {
                let m = choose|m: int| 0 <= m < apis.len() && under(base + rest)(#[trigger] apis[m]);
                lemma_under_prefix(apis[m], next, rest.drop_first());
                assert(under(next)(apis[m]));
            }
        }
    }
}

/// The tree has a node for a namespace exactly if that namespace is the root
/// or a record lives in it or below it, and that node holds the records of
/// that namespace: no namespace has two nodes, and none without content has
/// one.
pub proof fn lemma_nodes_are_namespaces_with_content(apis: Seq<Api>, path: Seq<Seq<char>>)
    ensures
        node_at(group(apis, Seq::empty()), path) == if path.len() == 0 || has_content(
            apis,
            path,
        ) {
            Some(group(apis, path))
        } else {
            None
        },
        group(apis, path).entries == entries_at(apis, path),
{
    lemma_node_at(apis, Seq::empty(), path);
    assert(Seq::<Seq<char>>::empty() + path =~= path);
}

/// A record is among those of the node of a namespace exactly if it lives in
/// that namespace. So two records are in one node exactly if their
/// namespaces are the same.
pub proof fn lemma_records_group_by_namespace(apis: Seq<Api>, path: Seq<Seq<char>>, i: int)
    requires
        0 <= i < apis.len(),
    ensures
        entries_at(apis, path).contains(apis[i]) <==> apis[i].ns@ == path,
{
    if apis[i].ns@ == path {
        Seq::lemma_filter_contains(apis, at(path), i);
    }
    if entries_at(apis, path).contains(apis[i]) {
        let k = choose|k: int| 0 <= k < entries_at(apis, path).len() && entries_at(apis, path)[k]
            == apis[i];
        lemma_filter_member(apis, at(path), k);
    }
}

/// The records of a list grouped by namespace.
pub struct NamespaceEntries<'a> {
    entries: Vec<&'a Api>,
    children: Vec<(&'a String, NamespaceEntries<'a>)>,
}

impl<'a> View for NamespaceEntries<'a> {
    type V = NsTree;

    closed spec fn view(&self) -> NsTree
        decreases self,
    {
        NsTree {
            entries: records(self.entries@),
            children: Seq::new(
                self.children.len() as nat,
                |i: int|
                    if 0 <= i < self.children.len() {
                        NsChild { name: self.children[i].0@, tree: self.children[i].1@ }
                    } else {
                        NsChild {
                            name: Seq::empty(),
                            tree: NsTree { entries: Seq::empty(), children: Seq::empty() },
                        }
                    },
            ),
        }
    }
}

impl<'a> NamespaceEntries<'a> {
    /// Groups `apis` by namespace.
    pub fn new(apis: &'a [Api]) -> (tree: Self)
        ensures
            tree@ == group(apis@, Seq::empty()),
    {
        let mut api_refs: Vec<&'a Api> = Vec::new();
        let mut i: usize = 0;
        while i < apis.len()
            invariant
                i <= apis.len(),
                records(api_refs@) == apis@.take(i as int),
            decreases apis.len() - i,
        {
            let ghost before = api_refs@;
            api_refs.push(&apis[i]);
            assert(records(api_refs@) =~= records(before).push(apis@[i as int]));
            assert(apis@.take(i + 1) =~= apis@.take(i as int).push(apis@[i as int]));
            i += 1;
        }
        proof {
            assert(apis@.take(apis@.len() as int) =~= apis@);
            assert forall|k: int| 0 <= k < apis@.len() implies under(Seq::empty())(
                #[trigger] apis@[k],
            ) by {
                assert(Seq::<Seq<char>>::empty() =~= apis@[k].ns@.subrange(0, 0));
            }
            lemma_filter_keeps_all(apis@, under(Seq::empty()));
        }
        Self::sort_by_inner_namespace(&api_refs, 0, Ghost(apis@), Ghost(Seq::empty()))
    }

    /// The records of this namespace, in the order of the list.
    pub fn entries(&self) -> (entries: &[&'a Api])
        ensures
            records(entries@) == self@.entries,
    {
        self.entries.as_slice()
    }

    /// The namespaces one level down, each with its last segment.
    pub fn children(&self) -> (children: &Vec<(&'a String, NamespaceEntries<'a>)>)
        ensures
            children@.len() == self@.children.len(),
            forall|i: int|
                0 <= i < children@.len() ==> (#[trigger] children@[i]).0@
                    == self@.children[i].name && children@[i].1@ == self@.children[i].tree,
    {
        &self.children
    }

    /// Groups the records of `apis`, which are those of `all` that live under
    /// `path`, by the segment that follows `path`.
    fn sort_by_inner_namespace(
        apis: &Vec<&'a Api>,
        depth: usize,
        Ghost(all): Ghost<Seq<Api>>,
        Ghost(path): Ghost<Seq<Seq<char>>>,
    ) -> (tree: Self)
        requires
            records(apis@) == all.filter(under(path)),
            depth == path.len(),
        ensures
            tree@ == group(all, path),
        decreases deepest(all) - depth,
    {
        let ghost list = records(apis@);
        let mut entries: Vec<&'a Api> = Vec::new();
        let mut kid_names: Vec<&'a String> = Vec::new();
        let mut kids: Vec<Vec<&'a Api>> = Vec::new();
        let mut i: usize = 0;
        while i < apis.len()
            invariant
                i <= apis.len(),
                list == records(apis@),
                list == all.filter(under(path)),
                depth == path.len(),
                records(entries@) == list.take(i as int).filter(at(path)),
                kid_names@.len() == kids@.len(),
                names(kid_names@) == distinct(
                    list.take(i as int).filter(below(path)).map_values(segment_at(path.len())),
                ),
                forall|k: int|
                    0 <= k < kids@.len() ==> records((#[trigger] kids@[k])@) == list.take(
                        i as int,
                    ).filter(under(path.push(kid_names@[k]@))),
                forall|k: int| 0 <= k < kids@.len() ==> (#[trigger] kids@[k])@.len() > 0,
                kids@.len() > 0 ==> depth < usize::MAX,
            decreases apis.len() - i,
        {
            let api: &'a Api = apis[i];
            let ghost seen = list.take(i as int);
            let ghost strict = seen.filter(below(path));
            let ghost segments = strict.map_values(segment_at(path.len()));
            proof {
                assert(list[i as int] == *api);
                lemma_filter_member(all, under(path), i as int);
                assert(path.is_prefix_of(api.ns@));
                lemma_filter_take_step(list, at(path), i as int);
                lemma_filter_take_step(list, below(path), i as int);
                lemma_distinct_no_duplicates(segments);
            }
            match api.ns.get(depth) {
                Some(segment) => {
                    let k = find_name(&kid_names, segment);
                    proof {
                        api.ns.lemma_len_fits();
                        assert(below(path)(*api));
                        assert(segment_at(path.len())(*api) == segment@);
                        assert(list.take(i + 1).filter(below(path)).map_values(
                            segment_at(path.len()),
                        ) =~= segments.push(segment@));
                        lemma_distinct_push(segments, segment@);
                    }
                    if k < kid_names.len() {
                        let ghost old_kids = kids@;
                        kids[k].push(api);
                        proof {
                            assert(names(kid_names@)[k as int] == segment@);
                            assert(names(kid_names@).contains(segment@));
                            assert(kids@.len() == old_kids.len());
                            assert(kids@[k as int]@ == old_kids[k as int]@.push(api));
                            assert forall|j: int| 0 <= j < kids@.len() implies records(
                                (#[trigger] kids@[j])@,
                            ) == list.take(i + 1).filter(under(path.push(kid_names@[j]@))) by {
                                lemma_kid_step(list, i as int, path, kid_names@[j]@);
                                assert(records(old_kids[j]@) == seen.filter(
                                    under(path.push(kid_names@[j]@)),
                                ));
                                if j == k {
                                    assert(records(kids@[j]@) =~= records(old_kids[j]@).push(
                                        *api,
                                    ));
                                } else {
                                    assert(kids@[j] == old_kids[j]);
                                    assert(names(kid_names@)[j] != names(kid_names@)[k as int]);
                                }
                            }
                            assert forall|j: int| 0 <= j < kids@.len() implies (
                            #[trigger] kids@[j])@.len() > 0 by {
                                if j != k {
                                    assert(kids@[j] == old_kids[j]);
                                }
                            }
                        }
                    } else {
                        let ghost old_kids = kids@;
                        let ghost old_names = kid_names@;
                        proof {
                            // No record seen so far lives under the new name.
                            let longer = path.push(segment@);
                            let hits = seen.filter(under(longer));
                            if hits.len() > 0 {
                                lemma_filter_member(seen, under(longer), 0);
                                lemma_under_child(hits[0], path, segment@);
                                let m = choose|m: int| 0 <= m < seen.len() && seen[m] == hits[0];
                                Seq::lemma_filter_contains(seen, below(path), m);
                                let n = choose|n: int|
                                    0 <= n < strict.len() && strict[n] == hits[0];
                                assert(segments[n] == segment@);
                                assert(segments.contains(segment@));
                                lemma_distinct_contains(segments, segment@);
                            }
                            lemma_kid_step(list, i as int, path, segment@);
                        }
                        kid_names.push(segment);
                        let mut first: Vec<&'a Api> = Vec::new();
                        first.push(api);
                        kids.push(first);
                        proof {
                            assert(records(first@) =~= Seq::<Api>::empty().push(*api));
                            assert(names(kid_names@) =~= distinct(segments).push(segment@));
                            assert forall|j: int| 0 <= j < kids@.len() implies records(
                                (#[trigger] kids@[j])@,
                            ) == list.take(i + 1).filter(under(path.push(kid_names@[j]@))) by {
                                lemma_kid_step(list, i as int, path, kid_names@[j]@);
                                if j < old_kids.len() {
                                    assert(kids@[j] == old_kids[j]);
                                    assert(kid_names@[j] == old_names[j]);
                                    assert(names(old_names)[j] == old_names[j]@);
                                    assert(names(old_names).contains(old_names[j]@));
                                }
                            }
                            assert forall|j: int| 0 <= j < kids@.len() implies (
                            #[trigger] kids@[j])@.len() > 0 by {
                                if j < old_kids.len() {
                                    assert(kids@[j] == old_kids[j]);
                                }
                            }
                        }
                    }
                },
                None => {
                    let ghost before = entries@;
                    entries.push(api);
                    proof {
                        assert(api.ns@ =~= path);
                        assert(records(entries@) =~= records(before).push(*api));
                        assert forall|j: int| 0 <= j < kids@.len() implies records(
                            (#[trigger] kids@[j])@,
                        ) == list.take(i + 1).filter(under(path.push(kid_names@[j]@))) by {
                            lemma_kid_step(list, i as int, path, kid_names@[j]@);
                        }
                    }
                },
            }
            i += 1;
        }
        proof {
            assert(list.take(list.len() as int) =~= list);
            lemma_filter_refines(all, under(path), at(path));
            lemma_filter_refines(all, under(path), below(path));
        }
        let mut children: Vec<(&'a String, NamespaceEntries<'a>)> = Vec::new();
        let mut k: usize = 0;
        while k < kid_names.len()
            invariant
                k <= kid_names@.len(),
                kid_names@.len() == kids@.len(),
                kids@.len() > 0 ==> depth < usize::MAX,
                depth == path.len(),
                list == all.filter(under(path)),
                names(kid_names@) == child_segments(all, path),
                forall|j: int|
                    0 <= j < kids@.len() ==> records((#[trigger] kids@[j])@) == list.filter(
                        under(path.push(kid_names@[j]@)),
                    ),
                children@.len() == k,
                forall|j: int|
                    0 <= j < k ==> (#[trigger] children@[j]).0@ == kid_names@[j]@
                        && children@[j].1@ == group(all, path.push(kid_names@[j]@)),
            decreases kid_names.len() - k,
        {
            let name: &'a String = kid_names[k];
            proof {
                assert(child_segments(all, path)[k as int] == name@);
                lemma_child_has_content(all, path, k as int);
                assert forall|a: Api| #[trigger] under(path.push(name@))(a) implies under(path)(
                    a,
                ) by {
                    lemma_under_child(a, path, name@);
                }
                lemma_filter_refines(all, under(path), under(path.push(name@)));
            }
            let child = Self::sort_by_inner_namespace(
                &kids[k],
                depth + 1,
                Ghost(all),
                Ghost(path.push(name@)),
            );
            children.push((name, child));
            k += 1;
        }
        let tree = NamespaceEntries { entries, children };
        proof {
            let segments = child_segments(all, path);
            assert(tree@.children.len() == segments.len());
            assert forall|j: int| 0 <= j < segments.len() implies tree@.children[j] == group(
                all,
                path,
            ).children[j] by {
                assert(children@[j].0@ == kid_names@[j]@);
                assert(names(kid_names@)[j] == segments[j]);
                lemma_child_has_content(all, path, j);
            }
            assert(tree@.children =~= group(all, path).children);
        }
        tree
    }
}

} // verus!
