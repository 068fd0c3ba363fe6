//! The use statements of the input, by namespace.

use crate::types::Namespace;
use vstd::prelude::*;

verus! {

/// The use statements that the input held, by the namespace whose module they
/// stood in. It is a map: no namespace is recorded twice, and what is
/// recorded for a namespace replaces what was recorded for it before.
pub struct UseStatements {
    entries: Vec<(Namespace, Vec<syn::Item>)>,
}

/// The map that a list of entries stands for.
pub open spec fn entries_map(entries: Seq<(Namespace, Vec<syn::Item>)>) -> Map<
    Seq<Seq<char>>,
    Seq<syn::Item>,
>
    decreases entries.len(),
{
    if entries.len() == 0 {
        Map::empty()
    } else {
        entries_map(entries.drop_last()).insert(entries.last().0@, entries.last().1@)
    }
}

proof fn lemma_last_entry_counts(
    entries: Seq<(Namespace, Vec<syn::Item>)>,
    i: int,
    ns: Seq<Seq<char>>,
)
    requires
        0 <= i < entries.len(),
        entries[i].0@ == ns,
        forall|j: int| i < j < entries.len() ==> entries[j].0@ != ns,
    ensures
        entries_map(entries).contains_key(ns),
        entries_map(entries)[ns] == entries[i].1@,
    decreases entries.len(),
{
    if i < entries.len() - 1 {
        lemma_last_entry_counts(entries.drop_last(), i, ns);
    }
}

proof fn lemma_no_entry(entries: Seq<(Namespace, Vec<syn::Item>)>, ns: Seq<Seq<char>>)
    requires
        forall|j: int| 0 <= j < entries.len() ==> entries[j].0@ != ns,
    ensures
        !entries_map(entries).contains_key(ns),
    decreases entries.len(),
{
    if entries.len() > 0 {
        lemma_no_entry(entries.drop_last(), ns);
    }
}

impl View for UseStatements {
    type V = Map<Seq<Seq<char>>, Seq<syn::Item>>;

    closed spec fn view(&self) -> Map<Seq<Seq<char>>, Seq<syn::Item>> {
        entries_map(self.entries@)
    }
}

/// No namespace has two entries.
pub open spec fn distinct_namespaces(entries: Seq<(Namespace, Vec<syn::Item>)>) -> bool {
    forall|i: int, j: int| 0 <= i < j < entries.len() ==> entries[i].0@ != entries[j].0@
}

/// Without the entry of a namespace, the entries stand for the map without
/// that namespace.
proof fn lemma_entry_removed(entries: Seq<(Namespace, Vec<syn::Item>)>, i: int)
    requires
        0 <= i < entries.len(),
        distinct_namespaces(entries),
    ensures
        entries_map(entries.remove(i)) == entries_map(entries).remove(entries[i].0@),
    decreases entries.len(),
{
    let rest = entries.drop_last();
    let last = entries.last();
    if i == entries.len() - 1 {
        assert(entries.remove(i) =~= rest);
        lemma_no_entry(rest, last.0@);
        assert(entries_map(rest) =~= entries_map(entries).remove(last.0@));
    } else {
        assert(entries.remove(i).drop_last() =~= rest.remove(i));
        assert(entries.remove(i).last() == last);
        lemma_entry_removed(rest, i);
        assert(entries_map(entries.remove(i)) =~= entries_map(entries).remove(entries[i].0@));
    }
}

impl UseStatements {
    #[verifier::type_invariant]
    spec fn no_namespace_twice(self) -> bool {
        distinct_namespaces(self.entries@)
    }

    /// No use statements at all.
    pub fn new() -> (uses: Self)
        ensures
            uses@ == Map::<Seq<Seq<char>>, Seq<syn::Item>>::empty(),
    {
        UseStatements { entries: Vec::new() }
    }

    /// The index of the entry of `ns`, or the number of entries where it has
    /// none.
    fn position(&self, ns: &Namespace) -> (i: usize)
        ensures
            i <= self.entries@.len(),
            i < self.entries@.len() ==> self.entries@[i as int].0@ == ns@,
            i == self.entries@.len() ==> forall|j: int|
                0 <= j < self.entries@.len() ==> self.entries@[j].0@ != ns@,
    {
        let mut i: usize = 0;
        while i < self.entries.len()
            invariant
                i <= self.entries@.len(),
                forall|j: int| 0 <= j < i ==> self.entries@[j].0@ != ns@,
            decreases self.entries.len() - i,
        {
            if self.entries[i].0 == *ns {
                return i;
            }
            i += 1;
        }
        i
    }

    /// Records `items` as the use statements of `ns`, in place of any that were
    /// recorded for it before.
    pub fn insert(&mut self, ns: Namespace, items: Vec<syn::Item>)
        ensures
            final(self)@ == old(self)@.insert(ns@, items@),
    {
        proof {
            use_type_invariant(&*self);
        }
        let i = self.position(&ns);
        let ghost before = self.entries@;
        let mut entries: Vec<(Namespace, Vec<syn::Item>)> = Vec::new();
        core::mem::swap(&mut entries, &mut self.entries);
        if i < entries.len() {
            proof {
                lemma_entry_removed(before, i as int);
            }
            entries.remove(i);
        } else {
            proof {
                lemma_no_entry(before, ns@);
                assert(entries_map(before) =~= entries_map(before).remove(ns@));
            }
        }
        let ghost between = entries@;
        entries.push((ns, items));
        proof {
            assert(entries@.drop_last() =~= between);
            assert(entries_map(entries@) =~= entries_map(before).insert(ns@, items@));
            assert forall|j: int, k: int| 0 <= j < k < entries@.len() implies entries@[j].0@
                != entries@[k].0@ by {
                let at = |m: int| if i < before.len() && m >= i { m + 1 } else { m };
                assert(entries@[j] == before[at(j)]);
                if k < between.len() {
                    assert(entries@[k] == before[at(k)]);
                }
            }
        }
        self.entries = entries;
    }

    /// The use statements recorded for `ns`.
    pub fn get(&self, ns: &Namespace) -> (found: Option<&Vec<syn::Item>>)
        ensures
            self@.contains_key(ns@) ==> found.is_some() && found.unwrap()@ == self@[ns@],
            !self@.contains_key(ns@) ==> found.is_none(),
    {
        let mut i: usize = self.entries.len();
        while i > 0
            invariant
                i <= self.entries@.len(),
                forall|j: int| i <= j < self.entries@.len() ==> self.entries@[j].0@ != ns@,
            decreases i,
        {
            i -= 1;
            if self.entries[i].0 == *ns {
                proof {
                    lemma_last_entry_counts(self.entries@, i as int, ns@);
                }
                return Some(&self.entries[i].1);
            }
        }
        proof {
            lemma_no_entry(self.entries@, ns@);
        }
        None
    }
}

/// The use statements that `uses` holds for `ns`: none where it holds no
/// entry.
pub open spec fn uses_at(uses: Map<Seq<Seq<char>>, Seq<syn::Item>>, ns: Seq<Seq<char>>) -> Seq<
    syn::Item,
> {
    if uses.contains_key(ns) {
        uses[ns]
    } else {
        Seq::empty()
    }
}

} // verus!
