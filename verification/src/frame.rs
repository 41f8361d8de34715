//! Where variables live in the stack frame, and which names a block has
//! introduced.

use vstd::prelude::*;

verus! {

/// One variable and its byte offset from the frame base.
pub struct Binding {
    pub name: String,
    pub offset: isize,
}

/// The map that a list of bindings stands for: a later binding of a name
/// replaces an earlier one.
pub open spec fn bindings_map(entries: Seq<Binding>) -> Map<Seq<char>, int>
    decreases entries.len(),
{
    if entries.len() == 0 {
        Map::empty()
    } else {
        bindings_map(entries.drop_last()).insert(
            entries.last().name@,
            entries.last().offset as int,
        )
    }
}

/// The variables in sight, each with its byte offset from the frame base.
pub struct FrameMap {
    entries: Vec<Binding>,
}

impl View for FrameMap {
    type V = Map<Seq<char>, int>;

    closed spec fn view(&self) -> Map<Seq<char>, int> {
        bindings_map(self.entries@)
    }
}

impl FrameMap {
    /// The map with no variable.
    pub fn new() -> (r: Self)
        ensures
            r@ == Map::<Seq<char>, int>::empty(),
    {
        FrameMap { entries: Vec::new() }
    }

    /// Binds `name` to `offset`, in place of an earlier binding of the name.
    pub fn insert(&mut self, name: String, offset: isize)
        ensures
            final(self)@ == old(self)@.insert(name@, offset as int),
    {
        self.entries.push(Binding { name, offset });
        assert(self.entries@.drop_last() =~= old(self).entries@);
    }

    /// The offset bound to `name`, if any.
    pub fn get(&self, name: &String) -> (r: Option<isize>)
        ensures
            match r {
                Some(offset) => self@.contains_key(name@) && self@[name@] == offset as int,
                None => !self@.contains_key(name@),
            },
    {
        let mut found: Option<isize> = None;
        let mut i: usize = 0;
        while i < self.entries.len()
            invariant
                i <= self.entries.len(),
                match found {
                    Some(offset) => {
                        let m = bindings_map(self.entries@.take(i as int));
                        m.contains_key(name@) && m[name@] == offset as int
                    },
                    None => !bindings_map(self.entries@.take(i as int)).contains_key(name@),
                },
            decreases self.entries.len() - i,
        {
            assert(self.entries@.take(i + 1).drop_last() =~= self.entries@.take(i as int));
            if self.entries[i].name == *name {
                found = Some(self.entries[i].offset);
            }
            i = i + 1;
        }
        assert(self.entries@.take(i as int) =~= self.entries@);
        found
    }

    /// A copy with the same bindings.
    pub fn duplicate(&self) -> (r: Self)
        ensures
            r@ == self@,
    {
        let mut entries: Vec<Binding> = Vec::new();
        let mut i: usize = 0;
        while i < self.entries.len()
            invariant
                i <= self.entries.len(),
                entries@ == self.entries@.take(i as int),
            decreases self.entries.len() - i,
        {
            let name = self.entries[i].name.clone();
            entries.push(Binding { name, offset: self.entries[i].offset });
            assert(entries@ =~= self.entries@.take(i + 1));
            i = i + 1;
        }
        assert(self.entries@.take(i as int) =~= self.entries@);
        FrameMap { entries }
    }
}

/// The views of a list of names.
pub open spec fn name_views(names: Seq<String>) -> Seq<Seq<char>> {
    names.map_values(|s: String| s@)
}

/// The names that the innermost open block has declared.
pub struct ScopeSet {
    names: Vec<String>,
}

impl View for ScopeSet {
    type V = Set<Seq<char>>;

    closed spec fn view(&self) -> Set<Seq<char>> {
        name_views(self.names@).to_set()
    }
}

impl ScopeSet {
    #[verifier::type_invariant]
    spec fn distinct(&self) -> bool {
        name_views(self.names@).no_duplicates()
    }

    /// The set with no name.
    pub fn new() -> (r: Self)
        ensures
            r@ == Set::<Seq<char>>::empty(),
    {
        let r = ScopeSet { names: Vec::new() };
        assert(name_views(r.names@).to_set() =~= Set::<Seq<char>>::empty());
        r
    }

    /// Whether `name` is in the set.
    pub fn contains(&self, name: &String) -> (r: bool)
        ensures
            r == self@.contains(name@),
    {
        let mut i: usize = 0;
        while i < self.names.len()
            invariant
                i <= self.names.len(),
                forall|j: int| 0 <= j < i ==> name_views(self.names@)[j] != name@,
            decreases self.names.len() - i,
        {
            if self.names[i] == *name {
                assert(name_views(self.names@)[i as int] == name@);
                return true;
            }
            i = i + 1;
        }
        false
    }

    /// Adds `name`; says whether it was new.
    pub fn insert(&mut self, name: String) -> (r: bool)
        ensures
            r == !old(self)@.contains(name@),
            final(self)@ == old(self)@.insert(name@),
    {
        proof {
            use_type_invariant(&*self);
        }
        if self.contains(&name) {
            assert(self@.insert(name@) =~= self@);
            false
        } else {
            let ghost before = name_views(self.names@);
            let mut held = ScopeSet::new();
            std::mem::swap(self, &mut held);
            let mut names = held.names;
            names.push(name);
            assert(name_views(names@) =~= before.push(name@));
            *self = ScopeSet { names };
            assert(before.push(name@).to_set() =~= before.to_set().insert(name@)) by {
                assert forall|x: Seq<char>| before.push(name@).to_set().contains(x) implies before.to_set().insert(name@).contains(x) by {
                    let j = choose|j: int| 0 <= j < before.push(name@).len() && before.push(name@)[j] == x;
                    if j < before.len() {
                        assert(before[j] == x);
                    }
                }
                assert forall|x: Seq<char>| before.to_set().insert(name@).contains(x) implies before.push(name@).to_set().contains(x) by {
                    if x == name@ {
                        assert(before.push(name@)[before.len() as int] == x);
                    } else {
                        let j = choose|j: int| 0 <= j < before.len() && before[j] == x;
                        assert(before.push(name@)[j] == x);
                    }
                }
            }
            true
        }
    }

    /// How many names are in the set.
    pub fn len(&self) -> (r: usize)
        ensures
            self@.finite(),
            r == self@.len(),
    {
        proof {
            use_type_invariant(self);
            name_views(self.names@).unique_seq_to_set();
        }
        self.names.len()
    }

    /// A copy with the same names.
    pub fn duplicate(&self) -> (r: Self)
        ensures
            r@ == self@,
    {
        proof {
            use_type_invariant(self);
        }
        let mut names: Vec<String> = Vec::new();
        let mut i: usize = 0;
        while i < self.names.len()
            invariant
                i <= self.names.len(),
                names@ == self.names@.take(i as int),
            decreases self.names.len() - i,
        {
            names.push(self.names[i].clone());
            assert(names@ =~= self.names@.take(i + 1));
            i = i + 1;
        }
        assert(self.names@.take(i as int) =~= self.names@);
        ScopeSet { names }
    }
}

} // verus!
