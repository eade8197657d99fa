use vstd::prelude::*;

use crate::errors::ResolveError;

verus! {

/// One named unit of schema definition: a file-level descriptor fragment
/// carrying its own name, the ordered names of the files it depends on, and
/// its serialized content. Immutable once decoded.
pub struct FileSchemaUnit {
    pub name: String,
    pub dependency: Vec<String>,
    pub content: Vec<u8>,
}

/// True when `s` holds a unit named `n`.
pub open spec fn seq_contains_name(s: Seq<FileSchemaUnit>, n: Seq<char>) -> bool {
    exists|i: int| 0 <= i < s.len() && s[i].name@ == n
}

/// True when every dependency that `u` declares names a unit of `s`.
pub open spec fn unit_deps_present(s: Seq<FileSchemaUnit>, u: FileSchemaUnit) -> bool {
    forall|j: int| 0 <= j < u.dependency@.len() ==> seq_contains_name(s, u.dependency@[j]@)
}

/// True when no two units of `s` share a name.
pub open spec fn names_unique(s: Seq<FileSchemaUnit>) -> bool {
    forall|i: int, j: int| 0 <= i < j < s.len() ==> s[i].name@ != s[j].name@
}

/// True when `s` is dependency-complete: every dependency of every unit
/// names a unit of `s`.
pub open spec fn registry_complete(s: Seq<FileSchemaUnit>) -> bool {
    forall|i: int| 0 <= i < s.len() ==> unit_deps_present(s, #[trigger] s[i])
}

/// The schema registry ("pool"): the assembled collection of file schema
/// units, queryable by name. Its invariant is that a unit stands in the
/// registry only if every unit it depends on does too.
pub struct SchemaRegistry {
    units: Vec<FileSchemaUnit>,
}

impl View for SchemaRegistry {
    type V = Seq<FileSchemaUnit>;

    closed spec fn view(&self) -> Seq<FileSchemaUnit> {
        self.units@
    }
}

impl SchemaRegistry {
    /// The registry's invariant: unit names are unique and every declared
    /// dependency is itself present.
    pub open spec fn wf(&self) -> bool {
        names_unique(self@) && registry_complete(self@)
    }

    pub fn new() -> (r: SchemaRegistry)
        ensures
            r@ == Seq::<FileSchemaUnit>::empty(),
            r.wf(),
    {
        SchemaRegistry { units: Vec::new() }
    }

    pub fn len(&self) -> (r: usize)
        ensures
            r == self@.len(),
    {
        self.units.len()
    }

    /// Whether a unit named `n` is already registered.
    pub fn contains_name(&self, n: &String) -> (r: bool)
        ensures
            r == seq_contains_name(self@, n@),
    {
        let mut i: usize = 0;
        while i < self.units.len()
            invariant
                0 <= i <= self.units@.len(),
                forall|k: int| 0 <= k < i ==> self.units@[k].name@ != n@,
            decreases self.units@.len() - i,
        {
            if self.units[i].name == *n {
                return true;
            }
            i += 1;
        }
        false
    }

    /// Insert one unit.
    ///
    /// Inserting a name that is already present leaves the registry
    /// unchanged and is never an error; a fresh unit is accepted exactly
    /// when every one of its declared dependencies is already present, and
    /// rejected (with one absent dependency named) otherwise.
    pub fn insert(&mut self, unit: FileSchemaUnit) -> (r: Result<(), ResolveError>)
        requires
            old(self).wf(),
        ensures
            final(self).wf(),
            seq_contains_name(old(self)@, unit.name@) ==> r is Ok && final(self)@ == old(self)@,
            !seq_contains_name(old(self)@, unit.name@) && unit_deps_present(old(self)@, unit)
                ==> r is Ok && final(self)@ == old(self)@.push(unit),
            !seq_contains_name(old(self)@, unit.name@) && !unit_deps_present(old(self)@, unit)
                ==> r is Err && final(self)@ == old(self)@,
            match r {
                Ok(()) => true,
                Err(e) => final(self)@ == old(self)@ && match e {
                    ResolveError::MissingDependency(d) => exists|j: int|
                        0 <= j < unit.dependency@.len() && unit.dependency@[j]@ == d@
                            && !seq_contains_name(old(self)@, d@),
                    _ => false,
                },
            },
    {
        if self.contains_name(&unit.name) {
            return Ok(());
        }
        let mut j: usize = 0;
        while j < unit.dependency.len()
            invariant
                0 <= j <= unit.dependency@.len(),
                forall|k: int| 0 <= k < j ==> seq_contains_name(self@, unit.dependency@[k]@),
                self.wf(),
                self@ == old(self)@,
                !seq_contains_name(self@, unit.name@),
            decreases unit.dependency@.len() - j,
        {
            if !self.contains_name(&unit.dependency[j]) {
                let d = unit.dependency[j].clone();
                return Err(ResolveError::MissingDependency(d));
            }
            j += 1;
        }
        proof {
            assert(unit_deps_present(self@, unit));
        }
        let ghost pre = self@;
        self.units.push(unit);
        proof {
            assert(self@ == pre.push(unit));
            assert forall|n: Seq<char>| seq_contains_name(pre, n) implies seq_contains_name(
                self@,
                n,
            ) by {
                let i = choose|i: int| 0 <= i < pre.len() && pre[i].name@ == n;
                assert(self@[i].name@ == n);
            }
            assert(registry_complete(self@));
            assert(names_unique(self@));
        }
        Ok(())
    }

    /// The registered unit named `n`, if any.
    pub fn get(&self, n: &String) -> (r: Option<&FileSchemaUnit>)
        ensures
            match r {
                Some(u) => seq_contains_name(self@, n@) && u.name@ == n@
                    && (exists|i: int| 0 <= i < self@.len() && self@[i] == *u),
                None => !seq_contains_name(self@, n@),
            },
    {
        let mut i: usize = 0;
        while i < self.units.len()
            invariant
                0 <= i <= self.units@.len(),
                forall|k: int| 0 <= k < i ==> self.units@[k].name@ != n@,
            decreases self.units@.len() - i,
        {
            if self.units[i].name == *n {
                return Some(&self.units[i]);
            }
            i += 1;
        }
        None
    }

    /// All registered units, in insertion order.
    pub fn units(&self) -> (r: &Vec<FileSchemaUnit>)
        ensures
            r@ == self@,
    {
        &self.units
    }
}

} // verus!
