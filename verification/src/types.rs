//! Namespaces and namespace-qualified type names.

use vstd::prelude::*;
use vstd::std_specs::cmp::PartialEqSpecImpl;

verus! {

/// The contents of each string of `v`.
pub open spec fn strs(v: Seq<String>) -> Seq<Seq<char>> {
    Seq::new(v.len(), |i: int| v[i]@)
}

/// The contents of the strings that a sequence of references points to.
pub open spec fn names(refs: Seq<&String>) -> Seq<Seq<char>> {
    Seq::new(refs.len(), |i: int| refs[i]@)
}

/// The index of the first of `all` whose content is that of `name`, or the
/// length of `all` where there is none.
pub(crate) fn find_name(all: &Vec<&String>, name: &String) -> (k: usize)
    ensures
        k <= all@.len(),
        k < all@.len() ==> all@[k as int]@ == name@,
        forall|j: int| 0 <= j < k ==> all@[j]@ != name@,
        k == all@.len() ==> !names(all@).contains(name@),
{
    let mut k: usize = 0;
    while k < all.len()
        invariant
            k <= all@.len(),
            forall|j: int| 0 <= j < k ==> all@[j]@ != name@,
        decreases all.len() - k,
    {
        if *all[k] == *name {
            return k;
        }
        k += 1;
    }
    k
}

/// The segments written one after the other with `::` between them.
pub open spec fn join_path(segments: Seq<Seq<char>>) -> Seq<char>
    decreases segments.len(),
{
    if segments.len() == 0 {
        Seq::empty()
    } else if segments.len() == 1 {
        segments[0]
    } else {
        join_path(segments.drop_last()) + "::"@ + segments.last()
    }
}

/// The segments written one after the other, each followed by `::`.
pub open spec fn path_prefix(segments: Seq<Seq<char>>) -> Seq<char>
    decreases segments.len(),
{
    if segments.len() == 0 {
        Seq::empty()
    } else {
        path_prefix(segments.drop_last()) + segments.last() + "::"@
    }
}

/// What is written behind a name to say which namespace it lives in: nothing
/// for the root namespace.
pub open spec fn display_suffix(segments: Seq<Seq<char>>) -> Seq<char> {
    if segments.len() == 0 {
        Seq::empty()
    } else {
        " (in namespace "@ + join_path(segments) + ")"@
    }
}

/// A namespace: the path of segments from the root to it. The root namespace
/// is the empty path.
#[derive(Debug, Eq, Hash)]
pub struct Namespace(Vec<String>);

impl View for Namespace {
    type V = Seq<Seq<char>>;

    closed spec fn view(&self) -> Seq<Seq<char>> {
        strs(self.0@)
    }
}

impl Namespace {
    /// The root namespace.
    pub fn new() -> (ns: Self)
        ensures
            ns@ == Seq::<Seq<char>>::empty(),
    {
        let ns = Namespace(Vec::new());
        assert(ns@ =~= Seq::<Seq<char>>::empty());
        ns
    }

    /// The namespace one level below this one.
    #[must_use]
    pub fn push(&self, segment: String) -> (ns: Self)
        ensures
            ns@ == self@.push(segment@),
    {
        let mut bigger = self.clone();
        bigger.0.push(segment);
        assert(bigger@ =~= self@.push(segment@));
        bigger
    }

    /// A namespace has no more segments than a machine word counts.
    pub proof fn lemma_len_fits(&self)
        ensures
            self@.len() <= usize::MAX,
    {
        let n: usize = self.0.len();
        assert(self@.len() == n);
    }

    /// Whether this is the root namespace.
    pub fn is_empty(&self) -> (empty: bool)
        ensures
            empty == (self@.len() == 0),
    {
        self.0.is_empty()
    }

    /// The number of segments.
    pub fn len(&self) -> (n: usize)
        ensures
            n == self@.len(),
    {
        self.0.len()
    }

    /// The segment at `depth`, counted from the root, if the path is that long.
    pub fn get(&self, depth: usize) -> (segment: Option<&String>)
        ensures
            depth < self@.len() ==> segment.is_some() && segment.unwrap()@ == self@[depth as int],
            depth >= self@.len() ==> segment.is_none(),
    {
        if depth < self.0.len() {
            Some(&self.0[depth])
        } else {
            None
        }
    }

    /// The path with `::` between its segments.
    pub fn to_path_string(&self) -> (text: String)
        ensures
            text@ == join_path(self@),
    {
        let mut text = String::new();
        let mut i: usize = 0;
        while i < self.0.len()
            invariant
                i <= self.0.len(),
                text@ == join_path(self@.take(i as int)),
            decreases self.0.len() - i,
        {
            proof {
                let upto = self@.take(i + 1);
                assert(upto.drop_last() =~= self@.take(i as int));
                assert(upto.last() == self.0@[i as int]@);
                if i == 1 {
                    assert(self@.take(1).drop_last() =~= Seq::<Seq<char>>::empty());
                    assert(join_path(self@.take(1)) == self@[0]);
                }
            }
            if i > 0 {
                text.append("::");
            }
            text.append(self.0[i].as_str());
            i += 1;
        }
        assert(self@.take(self@.len() as int) =~= self@);
        text
    }

    /// What to write behind a name to say that it lives in this namespace.
    pub fn to_display_suffix(&self) -> (text: String)
        ensures
            text@ == display_suffix(self@),
    {
        if self.is_empty() {
            String::new()
        } else {
            let mut text = String::from_str(" (in namespace ");
            let path = self.to_path_string();
            text.append(path.as_str());
            text.append(")");
            text
        }
    }
}

impl PartialEq for Namespace {
    fn eq(&self, other: &Self) -> (equal: bool) {
        if self.0.len() != other.0.len() {
            assert(self@.len() != other@.len());
            return false;
        }
        let mut i: usize = 0;
        while i < self.0.len()
            invariant
                i <= self.0.len(),
                self.0.len() == other.0.len(),
                forall|j: int| 0 <= j < i ==> self.0@[j]@ == other.0@[j]@,
            decreases self.0.len() - i,
        {
            if self.0[i] != other.0[i] {
                assert(self@[i as int] != other@[i as int]);
                return false;
            }
            i += 1;
        }
        assert(self@ =~= other@);
        true
    }
}

impl PartialEqSpecImpl for Namespace {
    open spec fn obeys_eq_spec() -> bool {
        true
    }

    open spec fn eq_spec(&self, other: &Self) -> bool {
        self@ == other@
    }
}

impl Clone for Namespace {
    fn clone(&self) -> (copy: Self)
        ensures
            copy@ == self@,
    {
        let mut segments: Vec<String> = Vec::new();
        let mut i: usize = 0;
        while i < self.0.len()
            invariant
                i <= self.0.len(),
                segments@.len() == i,
                forall|j: int| 0 <= j < i ==> segments@[j]@ == self.0@[j]@,
            decreases self.0.len() - i,
        {
            segments.push(self.0[i].clone());
            i += 1;
        }
        let copy = Namespace(segments);
        assert(copy@ =~= self@);
        copy
    }
}

/// The mathematical value of a [`TypeName`].
pub struct QualifiedName {
    pub ns: Seq<Seq<char>>,
    pub name: Seq<char>,
}

/// The name as the foreign language writes it: the namespace's segments, each
/// followed by `::`, then the name itself.
pub open spec fn cpp_name(name: QualifiedName) -> Seq<char> {
    path_prefix(name.ns) + name.name
}

/// The name of a type together with the namespace it lives in.
#[derive(Debug, Eq, Hash)]
pub struct TypeName(Namespace, String);

impl View for TypeName {
    type V = QualifiedName;

    closed spec fn view(&self) -> QualifiedName {
        QualifiedName { ns: self.0@, name: self.1@ }
    }
}

impl TypeName {
    /// The type called `id` in the namespace `ns`.
    pub fn new(ns: &Namespace, id: &str) -> (name: Self)
        ensures
            name@ == (QualifiedName { ns: ns@, name: id@ }),
    {
        TypeName(ns.clone(), String::from_str(id))
    }

    /// The namespace the type lives in.
    pub fn get_namespace(&self) -> (ns: &Namespace)
        ensures
            ns@ == self@.ns,
    {
        &self.0
    }

    /// The name without its namespace.
    pub fn get_final_ident(&self) -> (id: &str)
        ensures
            id@ == self@.name,
    {
        self.1.as_str()
    }

    /// The name as the foreign language writes it.
    pub fn to_cpp_name(&self) -> (text: String)
        ensures
            text@ == cpp_name(self@),
    {
        let mut text = String::new();
        let n = self.0.len();
        let mut i: usize = 0;
        while i < n
            invariant
                i <= n,
                n == self.0@.len(),
                text@ == path_prefix(self.0@.take(i as int)),
            decreases n - i,
        {
            proof {
                assert(self.0@.take(i + 1).drop_last() =~= self.0@.take(i as int));
            }
            match self.0.get(i) {
                Some(segment) => {
                    text.append(segment.as_str());
                },
                None => {},
            }
            text.append("::");
            i += 1;
        }
        assert(self.0@.take(n as int) =~= self.0@);
        text.append(self.1.as_str());
        text
    }
}

impl PartialEq for TypeName {
    fn eq(&self, other: &Self) -> (equal: bool) {
        self.0 == other.0 && self.1 == other.1
    }
}

impl PartialEqSpecImpl for TypeName {
    open spec fn obeys_eq_spec() -> bool {
        true
    }

    open spec fn eq_spec(&self, other: &Self) -> bool {
        self@ == other@
    }
}

impl Clone for TypeName {
    fn clone(&self) -> (copy: Self)
        ensures
            copy@ == self@,
    {
        TypeName(self.0.clone(), self.1.clone())
    }
}

/// The values of a sequence of type names.
pub open spec fn type_names(v: Seq<TypeName>) -> Seq<QualifiedName> {
    Seq::new(v.len(), |i: int| v[i]@)
}

} // verus!
