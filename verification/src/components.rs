//! The component store of an entity: a mapping from component name to value
//! in which every name occurs once.

use vstd::prelude::*;

verus! {

/// The value of a component.
#[derive(Clone, Debug)]
pub enum ComponentValue {
    /// A reference by index, such as the mesh an entity shows.
    Index(usize),
    /// A plain string, such as an entity's name.
    Text(String),
    /// Structured data as JSON text; the store carries it and never reads it.
    Json(String),
}

/// The mathematical value of a [`ComponentValue`].
pub enum ValueView {
    Index(usize),
    Text(Seq<char>),
    Json(Seq<char>),
}

impl View for ComponentValue {
    type V = ValueView;

    open spec fn view(&self) -> ValueView {
        match self {
            ComponentValue::Index(i) => ValueView::Index(*i),
            ComponentValue::Text(s) => ValueView::Text(s@),
            ComponentValue::Json(s) => ValueView::Json(s@),
        }
    }
}

/// One named component.
#[derive(Clone, Debug)]
pub struct Component {
    /// The component's name, its key in the store.
    pub name: String,
    /// The component's value.
    pub value: ComponentValue,
}

/// Whether no name occurs twice.
pub open spec fn names_distinct(s: Seq<Component>) -> bool {
    forall|i: int, j: int| 0 <= i < j < s.len() ==> (#[trigger] s[i]).name@ != (#[trigger] s[j]).name@
}

/// Whether some component is named `k`.
pub open spec fn has_name(s: Seq<Component>, k: Seq<char>) -> bool {
    exists|i: int| 0 <= i < s.len() && (#[trigger] s[i]).name@ == k
}

/// The position of a component named `k`.
pub open spec fn position_of(s: Seq<Component>, k: Seq<char>) -> int {
    choose|i: int| 0 <= i < s.len() && (#[trigger] s[i]).name@ == k
}

/// The mapping that a list of components with distinct names stands for.
pub open spec fn mapping_of(s: Seq<Component>) -> Map<Seq<char>, ValueView> {
    Map::new(|k: Seq<char>| has_name(s, k), |k: Seq<char>| s[position_of(s, k)].value@)
}

/// In a list with distinct names, each component is what the mapping holds
/// under its name.
pub proof fn lemma_mapping_holds(s: Seq<Component>, i: int)
    requires
        names_distinct(s),
        0 <= i < s.len(),
    ensures
        has_name(s, s[i].name@),
        position_of(s, s[i].name@) == i,
        mapping_of(s).contains_key(s[i].name@),
        mapping_of(s)[s[i].name@] == s[i].value@,
{
    let k = s[i].name@;
    assert(0 <= i < s.len() && s[i].name@ == k);
    let j = position_of(s, k);
    assert(0 <= j < s.len() && s[j].name@ == k);
    if j < i {
        assert(s[j].name@ != s[i].name@);
    } else if i < j {
        assert(s[i].name@ != s[j].name@);
    }
}

/// The components of an entity, keyed by name.
#[derive(Debug)]
pub struct ComponentSet {
    entries: Vec<Component>,
}

impl View for ComponentSet {
    type V = Map<Seq<char>, ValueView>;

    closed spec fn view(&self) -> Map<Seq<char>, ValueView> {
        mapping_of(self.entries@)
    }
}

impl ComponentSet {
    /// Whether every name occurs once. Every store that this module hands out
    /// is well formed.
    pub closed spec fn well_formed(&self) -> bool {
        names_distinct(self.entries@)
    }

    /// The empty store.
    pub fn new() -> (set: ComponentSet)
        ensures
            set.well_formed(),
            set@ == Map::<Seq<char>, ValueView>::empty(),
    {
        let set = ComponentSet { entries: Vec::new() };
        assert(set@ =~= Map::<Seq<char>, ValueView>::empty());
        set
    }

    /// The position of the component named `name`, if there is one.
    fn find(&self, name: &String) -> (r: Option<usize>)
        ensures
            match r {
                Some(i) => i < self.entries@.len() && self.entries@[i as int].name@ == name@,
                None => !has_name(self.entries@, name@),
            },
    {
        let mut i: usize = 0;
        while i < self.entries.len()
            invariant
                i <= self.entries@.len(),
                forall|j: int| 0 <= j < i ==> (#[trigger] self.entries@[j]).name@ != name@,
            decreases self.entries@.len() - i,
        {
            if self.entries[i].name == *name {
                return Some(i);
            }
            i = i + 1;
        }
        None
    }

    /// Stores `value` under `name`, in place of what was stored there.
    pub fn insert(&mut self, name: String, value: ComponentValue)
        requires
            old(self).well_formed(),
        ensures
            final(self).well_formed(),
            final(self)@ == old(self)@.insert(name@, value@),
    {
        let ghost before = self.entries@;
        let ghost key = name@;
        let ghost val = value@;
        let found = self.find(&name);
        let entry = Component { name, value };
        match found {
            Some(i) => {
                self.entries.set(i, entry);
            },
            None => {
                self.entries.push(entry);
            },
        }
        proof {
            let after = self.entries@;
            let at: int = match found {
                Some(i) => i as int,
                None => before.len() as int,
            };
            assert(after[at].name@ == key && after[at].value@ == val);
            assert forall|j: int| 0 <= j < before.len() && j != at implies after[j] == before[j] by {}
            assert(names_distinct(after)) by {
                assert forall|a: int, b: int| 0 <= a < b < after.len() implies (#[trigger] after[a]).name@
                    != (#[trigger] after[b]).name@ by {
                    if a != at && b != at {
                        assert(before[a].name@ != before[b].name@);
                    } else if found.is_some() {
                        if a == at {
                            assert(before[a].name@ != before[b].name@);
                        } else {
                            assert(before[a].name@ != before[b].name@);
                        }
                    } else {
                        assert(b == at);
                        assert(0 <= a < before.len() && before[a].name@ == after[a].name@);
                    }
                }
            }
            let target = mapping_of(before).insert(key, val);
            assert forall|k: Seq<char>| mapping_of(after).contains_key(k) <==> target.contains_key(
                k,
            ) by {
                if has_name(after, k) {
                    let j = position_of(after, k);
                    if j != at {
                        assert(before[j].name@ == k);
                    }
                }
                if k == key {
                    assert(after[at].name@ == k);
                } else if has_name(before, k) {
                    let j = position_of(before, k);
                    assert(j != at);
                    assert(after[j].name@ == k);
                }
            }
            assert forall|k: Seq<char>| mapping_of(after).contains_key(k) implies mapping_of(
                after,
            )[k] == target[k] by {
                let j = position_of(after, k);
                lemma_mapping_holds(after, j);
                if j != at {
                    assert(before[j].name@ == k);
                    lemma_mapping_holds(before, j);
                }
            }
            assert(mapping_of(after) =~= target);
        }
    }

    /// The value stored under `name`, if there is one.
    pub fn get(&self, name: &String) -> (r: Option<&ComponentValue>)
        requires
            self.well_formed(),
        ensures
            match r {
                Some(v) => self@.contains_key(name@) && self@[name@] == v@,
                None => !self@.contains_key(name@),
            },
    {
        match self.find(name) {
            Some(i) => {
                proof {
                    lemma_mapping_holds(self.entries@, i as int);
                }
                Some(&self.entries[i].value)
            },
            None => None,
        }
    }

    /// The stored components, each name once, in no particular order.
    pub fn entries(&self) -> (r: &Vec<Component>)
        ensures
            self.well_formed() ==> names_distinct(r@),
            self@ == mapping_of(r@),
    {
        &self.entries
    }
}

} // verus!
