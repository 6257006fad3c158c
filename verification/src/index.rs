//! The mutable graph store: packages, files, types and declarations.
//!
//! Types are identified purely by name.  A bare reference to an undeclared
//! name creates a placeholder type with no declarations; a later declaration
//! of the same name attaches to the same type id.  The store only grows.

pub mod cursor;
pub mod laws;
pub mod trie;

use crate::Point;
use crate::index::trie::{trie_entries, trie_insert, trie_longest_prefix_value, trie_new};
use patricia_tree::GenericPatriciaMap;
use vstd::hash_map::HashMapWithView;
use vstd::hash_map::StringHashMap;
use vstd::prelude::*;

verus! {

broadcast use vstd::std_specs::hash::group_hash_axioms;

/// Identifies a package by its insertion order.
pub type PackageId = usize;

/// Identifies an interned file path.
pub type FileId = usize;

/// Identifies a type; assigned once per distinct name and never reassigned.
pub type TypeId = usize;

/// What a declaration site declares.
#[derive(Clone, Copy, Debug, PartialEq, Eq, Structural)]
pub enum Kind {
    Struct,
    Enum,
    Class,
    Protocol,
    Extension,
}

/// Whether a type was declared in the scanned sources or merely referenced.
#[derive(Clone, Copy, Debug, PartialEq, Eq, Structural)]
pub enum TypeOrigin {
    Local,
    External,
}

/// A named package rooted at a directory prefix.
#[derive(Debug, Clone)]
pub struct Package {
    pub name: String,
    pub path_prefix: String,
}

/// One declaration or extension site of a type.
#[derive(Debug, Clone)]
pub struct Declaration {
    /// Declaration kind.
    pub kind: Kind,
    /// Location within the file.
    pub point: Point,
    /// File in which the declaration stands.
    pub file: FileId,
    /// Types the declaration uses, with the location of each reference.
    /// Repeated references to the same target are distinct edges.
    pub dependencies: Vec<(TypeId, Point)>,
}

/// A named type together with every declaration site seen for it so far.
#[derive(Debug, Clone)]
pub struct Type {
    pub name: String,
    pub declarations: Vec<Declaration>,
}

/// Mathematical value of a [`Declaration`].
#[verifier::ext_equal]
pub ghost struct DeclView {
    pub kind: Kind,
    pub point: Point,
    pub file: usize,
    pub deps: Seq<(usize, Point)>,
}

/// Mathematical value of a [`Type`].
#[verifier::ext_equal]
pub ghost struct TypeView {
    pub name: Seq<char>,
    pub decls: Seq<DeclView>,
}

/// Mathematical value of a [`Package`].
#[verifier::ext_equal]
pub ghost struct PackageView {
    pub name: Seq<char>,
    pub path_prefix: Seq<char>,
}

/// Mathematical value of the whole [`Index`].
#[verifier::ext_equal]
pub ghost struct IndexView {
    pub packages: Seq<PackageView>,
    pub package_ids: Map<Seq<char>, usize>,
    pub packages_by_path: Map<Seq<char>, usize>,
    pub files: Seq<Seq<char>>,
    pub file_ids: Map<Seq<char>, usize>,
    pub types: Seq<TypeView>,
    pub type_ids: Map<Seq<char>, usize>,
}

pub open spec fn decl_view(d: Declaration) -> DeclView {
    DeclView { kind: d.kind, point: d.point, file: d.file, deps: d.dependencies@ }
}

pub open spec fn type_view(t: Type) -> TypeView {
    TypeView { name: t.name@, decls: t.declarations@.map_values(|d: Declaration| decl_view(d)) }
}

pub open spec fn package_view(p: Package) -> PackageView {
    PackageView { name: p.name@, path_prefix: p.path_prefix@ }
}

/// The origin is derived: external until the first declaration is attached,
/// then permanently local.
pub open spec fn origin_of(tv: TypeView) -> TypeOrigin {
    if tv.decls.len() == 0 {
        TypeOrigin::External
    } else {
        TypeOrigin::Local
    }
}

impl DeclView {
    /// Every dependency edge targets an existing type and the owning file is
    /// interned.
    pub open spec fn wf(self, n_types: int, n_files: int) -> bool {
        &&& self.file < n_files
        &&& forall|k: int| 0 <= k < self.deps.len() ==> (#[trigger] self.deps[k]).0 < n_types
    }
}

impl TypeView {
    pub open spec fn wf(self, n_types: int, n_files: int) -> bool {
        forall|j: int| 0 <= j < self.decls.len() ==> (#[trigger] self.decls[j]).wf(n_types, n_files)
    }
}

impl IndexView {
    /// The name-to-id map and the type storage agree: every mapped name points
    /// at the type of that name, and every stored type is mapped.
    pub open spec fn type_ids_wf(self) -> bool {
        &&& forall|n: Seq<char>| #[trigger] self.type_ids.contains_key(n)
            ==> self.type_ids[n] < self.types.len() && self.types[self.type_ids[n] as int].name == n
        &&& forall|i: int| 0 <= i < self.types.len()
            ==> self.type_ids.contains_key((#[trigger] self.types[i]).name)
                && self.type_ids[self.types[i].name] == i
    }

    /// File paths are interned once; the cache and the storage agree.
    pub open spec fn file_ids_wf(self) -> bool {
        &&& forall|n: Seq<char>| #[trigger] self.file_ids.contains_key(n)
            ==> self.file_ids[n] < self.files.len() && self.files[self.file_ids[n] as int] == n
        &&& forall|i: int| 0 <= i < self.files.len()
            ==> self.file_ids.contains_key(#[trigger] self.files[i])
                && self.file_ids[self.files[i]] == i
    }

    /// Both package lookups point into the package storage.  Same-name
    /// packages are not deduplicated: the name map keeps the last write.
    pub open spec fn package_ids_wf(self) -> bool {
        &&& forall|n: Seq<char>| #[trigger] self.package_ids.contains_key(n)
            ==> self.package_ids[n] < self.packages.len()
                && self.packages[self.package_ids[n] as int].name == n
        &&& forall|p: Seq<char>| #[trigger] self.packages_by_path.contains_key(p)
            ==> self.packages_by_path[p] < self.packages.len()
                && self.packages[self.packages_by_path[p] as int].path_prefix == p
    }

    pub open spec fn types_wf(self) -> bool {
        forall|i: int| 0 <= i < self.types.len()
            ==> (#[trigger] self.types[i]).wf(self.types.len() as int, self.files.len() as int)
    }

    pub open spec fn wf(self) -> bool {
        &&& self.type_ids_wf()
        &&& self.file_ids_wf()
        &&& self.package_ids_wf()
        &&& self.types_wf()
    }
}

/// The value of a freshly created index.
pub open spec fn empty_index() -> IndexView {
    IndexView {
        packages: Seq::empty(),
        package_ids: Map::empty(),
        packages_by_path: Map::empty(),
        files: Seq::empty(),
        file_ids: Map::empty(),
        types: Seq::empty(),
        type_ids: Map::empty(),
    }
}

/// Effect of [`Index::add_reference`]: get-or-create a type id by name,
/// creating an external placeholder type when the name is new.
pub open spec fn add_ref_spec(iv: IndexView, name: Seq<char>) -> (IndexView, usize) {
    if iv.type_ids.contains_key(name) {
        (iv, iv.type_ids[name])
    } else {
        let id = iv.types.len() as usize;
        (
            IndexView {
                types: iv.types.push(TypeView { name: name, decls: Seq::empty() }),
                type_ids: iv.type_ids.insert(name, id),
                ..iv
            },
            id,
        )
    }
}

/// Effect of interning a file path: get-or-create its id.
pub open spec fn intern_file_spec(iv: IndexView, path: Seq<char>) -> (IndexView, usize) {
    if iv.file_ids.contains_key(path) {
        (iv, iv.file_ids[path])
    } else {
        let id = iv.files.len() as usize;
        (
            IndexView { files: iv.files.push(path), file_ids: iv.file_ids.insert(path, id), ..iv },
            id,
        )
    }
}

/// Effect of resolving a declaration's references in order, each through
/// [`add_ref_spec`], yielding the dependency edges of the new declaration.
pub open spec fn add_refs_spec(iv: IndexView, refs: Seq<(Seq<char>, Point)>) -> (
    IndexView,
    Seq<(usize, Point)>,
)
    decreases refs.len(),
{
    if refs.len() == 0 {
        (iv, Seq::empty())
    } else {
        let (iv1, id) = add_ref_spec(iv, refs.first().0);
        let (iv2, rest) = add_refs_spec(iv1, refs.drop_first());
        (iv2, seq![(id, refs.first().1)] + rest)
    }
}

/// Effect of attaching a finished declaration to the type called `name`:
/// append to that type's declaration list when the name is known, else
/// create the type with exactly this declaration.
pub open spec fn attach_decl_spec(iv: IndexView, name: Seq<char>, d: DeclView) -> (
    IndexView,
    usize,
) {
    if iv.type_ids.contains_key(name) {
        let id = iv.type_ids[name];
        let t = iv.types[id as int];
        (
            IndexView {
                types: iv.types.update(id as int, TypeView { name: t.name, decls: t.decls.push(d) }),
                ..iv
            },
            id,
        )
    } else {
        let id = iv.types.len() as usize;
        (
            IndexView {
                types: iv.types.push(TypeView { name: name, decls: seq![d] }),
                type_ids: iv.type_ids.insert(name, id),
                ..iv
            },
            id,
        )
    }
}

/// Effect of [`Index::add_declaration`]: intern the file, resolve every
/// reference first, then attach the finished declaration to the named type.
pub open spec fn add_decl_spec(
    iv: IndexView,
    name: Seq<char>,
    kind: Kind,
    file: Seq<char>,
    point: Point,
    refs: Seq<(Seq<char>, Point)>,
) -> (IndexView, usize) {
    let (iv1, fid) = intern_file_spec(iv, file);
    let (iv2, deps) = add_refs_spec(iv1, refs);
    attach_decl_spec(iv2, name, DeclView { kind: kind, point: point, file: fid, deps: deps })
}

/// Effect of [`Index::add_package`]: the package is appended, its name entry
/// is overwritten (last write wins) and its path prefix is registered.
pub open spec fn add_package_spec(iv: IndexView, name: Seq<char>, path_prefix: Seq<char>) -> IndexView {
    let id = iv.packages.len() as usize;
    IndexView {
        packages: iv.packages.push(PackageView { name: name, path_prefix: path_prefix }),
        package_ids: iv.package_ids.insert(name, id),
        packages_by_path: iv.packages_by_path.insert(path_prefix, id),
        ..iv
    }
}

/// The locations at which `deps` references target `id`, in edge order.
pub open spec fn points_for(deps: Seq<(usize, Point)>, id: usize) -> Seq<Point>
    decreases deps.len(),
{
    if deps.len() == 0 {
        Seq::empty()
    } else {
        let rest = points_for(deps.drop_last(), id);
        if deps.last().0 == id {
            rest.push(deps.last().1)
        } else {
            rest
        }
    }
}

impl Declaration {
    /// The dependency edges grouped by target: each referenced type id maps
    /// to the locations of the references to it, in edge order.
    pub fn dependencies(&self) -> (m: HashMapWithView<TypeId, Vec<Point>>)
        ensures
            forall|id: usize| m@.contains_key(id) <==> points_for(self.dependencies@, id).len()
                > 0,
            forall|id: usize| #[trigger] m@.contains_key(id) ==> m@[id]@ == points_for(
                self.dependencies@,
                id,
            ),
    {
        let mut m: HashMapWithView<TypeId, Vec<Point>> = HashMapWithView::new();
        let mut k: usize = 0;
        proof {
            assert(self.dependencies@.take(0) =~= Seq::<(usize, Point)>::empty());
        }
        while k < self.dependencies.len()
            invariant
                k <= self.dependencies@.len(),
                forall|id: usize| m@.contains_key(id) <==> points_for(
                    self.dependencies@.take(k as int),
                    id,
                ).len() > 0,
                forall|id: usize| #[trigger] m@.contains_key(id) ==> m@[id]@ == points_for(
                    self.dependencies@.take(k as int),
                    id,
                ),
            decreases self.dependencies@.len() - k,
        {
            let ghost m0 = m@;
            let edge = self.dependencies[k];
            let mut points = match m.remove(&edge.0) {
                Some(v) => v,
                None => Vec::new(),
            };
            points.push(edge.1);
            m.insert(edge.0, points);
            proof {
                assert(m@ =~= m0.insert(edge.0, points));
                assert(self.dependencies@.take(k + 1).drop_last() =~= self.dependencies@.take(
                    k as int,
                ));
                assert(self.dependencies@.take(k + 1).last() == self.dependencies@[k as int]);
                assert forall|id: usize| #[trigger] m@.contains_key(id) implies m@[id]@
                    == points_for(self.dependencies@.take(k + 1), id) by {
                    if id != edge.0 {
                        assert(m0.contains_key(id));
                    }
                }
            }
            k += 1;
        }
        proof {
            assert(self.dependencies@.take(self.dependencies@.len() as int)
                =~= self.dependencies@);
        }
        m
    }

    /// An owned copy of this declaration record.
    pub fn duplicate(&self) -> (d: Declaration)
        ensures
            decl_view(d) == decl_view(*self),
    {
        let mut dependencies: Vec<(TypeId, Point)> = Vec::new();
        proof {
            assert(dependencies@ =~= self.dependencies@.take(0));
        }
        let mut k: usize = 0;
        while k < self.dependencies.len()
            invariant
                k <= self.dependencies@.len(),
                dependencies@ == self.dependencies@.take(k as int),
            decreases self.dependencies@.len() - k,
        {
            dependencies.push(self.dependencies[k]);
            proof {
                assert(self.dependencies@.take(k + 1) =~= self.dependencies@.take(
                    k as int,
                ).push(self.dependencies@[k as int]));
            }
            k += 1;
        }
        proof {
            assert(self.dependencies@.take(self.dependencies@.len() as int)
                =~= self.dependencies@);
        }
        Declaration { kind: self.kind, point: self.point, file: self.file, dependencies }
    }
}

impl PartialEq for Declaration {
    /// Two declaration records are equal when their mathematical values are.
    fn eq(&self, other: &Self) -> (r: bool) {
        if self.kind == other.kind && self.point == other.point && self.file == other.file
            && self.dependencies.len() == other.dependencies.len() {
            let mut k: usize = 0;
            while k < self.dependencies.len()
                invariant
                    k <= self.dependencies@.len(),
                    self.dependencies@.len() == other.dependencies@.len(),
                    forall|x: int| 0 <= x < k ==> self.dependencies@[x] == other.dependencies@[x],
                decreases self.dependencies@.len() - k,
            {
                let a = self.dependencies[k];
                let b = other.dependencies[k];
                if a.0 != b.0 || a.1 != b.1 {
                    return false;
                }
                k += 1;
            }
            proof {
                assert(self.dependencies@ =~= other.dependencies@);
                assert(decl_view(*self) =~= decl_view(*other));
            }
            true
        } else {
            false
        }
    }
}

impl vstd::std_specs::cmp::PartialEqSpecImpl for Declaration {
    open spec fn obeys_eq_spec() -> bool {
        true
    }

    open spec fn eq_spec(&self, other: &Self) -> bool {
        decl_view(*self) == decl_view(*other)
    }
}

impl Type {
    /// A type with no declaration site is external.
    pub fn origin(&self) -> (o: TypeOrigin)
        ensures
            o == origin_of(type_view(*self)),
    {
        if self.declarations.len() == 0 {
            TypeOrigin::External
        } else {
            TypeOrigin::Local
        }
    }
}

/// The error [`Index::walk`] reports for a name the index has never seen.
#[derive(Debug, Clone)]
pub struct NotFoundError {
    /// The name that was asked for.
    pub name: String,
}

/// The graph store.  Populated by a single consumer; queried thereafter.
pub struct Index {
    packages: Vec<Package>,
    files: Vec<String>,
    types: Vec<Type>,
    file_ids: StringHashMap<usize>,
    package_ids: StringHashMap<usize>,
    type_ids: StringHashMap<usize>,
    packages_by_path: GenericPatriciaMap<String, usize>,
}

impl View for Index {
    type V = IndexView;

    closed spec fn view(&self) -> IndexView {
        IndexView {
            packages: self.packages@.map_values(|p: Package| package_view(p)),
            package_ids: self.package_ids@,
            packages_by_path: trie_entries(self.packages_by_path),
            files: self.files@.map_values(|s: String| s@),
            file_ids: self.file_ids@,
            types: self.types@.map_values(|t: Type| type_view(t)),
            type_ids: self.type_ids@,
        }
    }
}

impl Index {
    pub fn new() -> (r: Index)
        ensures
            r@ == empty_index(),
            r@.wf(),
    {
        let index = Index {
            packages: Vec::new(),
            files: Vec::new(),
            types: Vec::new(),
            file_ids: StringHashMap::new(),
            package_ids: StringHashMap::new(),
            type_ids: StringHashMap::new(),
            packages_by_path: trie_new(),
        };
        proof {
            assert(index@ =~~= empty_index());
        }
        index
    }

    /// Get the type id of a name, if the index has ever seen the name.
    pub fn type_id(&self, name: &str) -> (r: Option<TypeId>)
        ensures
            match r {
                Some(id) => self@.type_ids.contains_key(name@) && id == self@.type_ids[name@],
                None => !self@.type_ids.contains_key(name@),
            },
    {
        match self.type_ids.get(name) {
            Some(id) => Some(*id),
            None => None,
        }
    }

    /// Get the type stored under an id, if the id is in range.
    pub fn get_type(&self, type_id: TypeId) -> (r: Option<&Type>)
        ensures
            match r {
                Some(t) => type_id < self@.types.len() && type_view(*t) == self@.types[type_id as int],
                None => type_id >= self@.types.len(),
            },
    {
        if type_id < self.types.len() {
            Some(&self.types[type_id])
        } else {
            None
        }
    }

    /// The path of the file a declaration was made in, if its file id is known.
    pub fn file_path(&self, declaration: &Declaration) -> (r: Option<String>)
        ensures
            match r {
                Some(p) => declaration.file < self@.files.len()
                    && p@ == self@.files[declaration.file as int],
                None => declaration.file >= self@.files.len(),
            },
    {
        if declaration.file < self.files.len() {
            Some(self.files[declaration.file].clone())
        } else {
            None
        }
    }

    /// How many distinct type names the index has seen.
    pub fn type_count(&self) -> (n: usize)
        ensures
            n == self@.types.len(),
    {
        self.types.len()
    }

    /// Every list in a real index fits the machine.
    pub proof fn lemma_types_bounded(&self)
        ensures
            cursor::types_bounded(self@.types),
    {
        vstd::std_specs::vec::axiom_spec_len(&self.types);
        assert forall|i: int| 0 <= i < self@.types.len() implies (
        #[trigger] self@.types[i]).decls.len() <= usize::MAX && (forall|j: int|
            0 <= j < self@.types[i].decls.len() ==> (#[trigger] self@.types[i].decls[j]).deps.len()
                <= usize::MAX) by {
            vstd::std_specs::vec::axiom_spec_len(&self.types@[i].declarations);
            assert(self@.types[i] == type_view(self.types@[i]));
            assert forall|j: int| 0 <= j < self@.types[i].decls.len() implies (
            #[trigger] self@.types[i].decls[j]).deps.len() <= usize::MAX by {
                vstd::std_specs::vec::axiom_spec_len(
                    &self.types@[i].declarations@[j].dependencies,
                );
                assert(self@.types[i].decls[j] == decl_view(self.types@[i].declarations@[j]));
            }
        }
    }

    /// Start a walk from the type of the given name.  Fails exactly when the
    /// index has never seen the name.
    pub fn walk(&self, name: &str) -> (r: Result<cursor::IndexCursor, NotFoundError>)
        requires
            self@.wf(),
        ensures
            match r {
                Ok(c) => self@.type_ids.contains_key(name@) && c.wf(*self) && c.path@ == seq![
                    cursor::Segment::Type(self@.type_ids[name@]),
                ] && cursor::visited_set(c.visited@) == Set::<usize>::empty(),
                Err(e) => !self@.type_ids.contains_key(name@) && e.name@ == name@,
            },
    {
        match self.type_id(name) {
            Some(type_id) => Ok(cursor::IndexCursor::new(self, type_id)),
            None => Err(NotFoundError { name: name.to_owned() }),
        }
    }

    /// Get-or-create a type id for a name.  Creating makes an external
    /// placeholder type with no declarations.
    pub fn add_reference(&mut self, name: &str) -> (r: TypeId)
        requires
            old(self)@.wf(),
        ensures
            final(self)@ == add_ref_spec(old(self)@, name@).0,
            r == add_ref_spec(old(self)@, name@).1,
            final(self)@.wf(),
    {
        let existing = self.type_ids.get(name);
        match existing {
            Some(id) => *id,
            None => {
                let id = self.types.len();
                self.types.push(Type { name: name.to_owned(), declarations: Vec::new() });
                self.type_ids.insert(name.to_owned(), id);
                proof {
                    assert(self@.types =~~= add_ref_spec(old(self)@, name@).0.types);
                    assert(self@ =~~= add_ref_spec(old(self)@, name@).0);
                    lemma_add_ref_spec_wf(old(self)@, name@);
                }
                id
            }
        }
    }
}

/// The mathematical value of a reference list handed to
/// [`Index::add_declaration`].
pub open spec fn refs_view(rs: Seq<(String, Point)>) -> Seq<(Seq<char>, Point)> {
    rs.map_values(|r: (String, Point)| (r.0@, r.1))
}

/// [`add_ref_spec`] preserves well-formedness and returns a valid id for the
/// requested name.
pub proof fn lemma_add_ref_spec_wf(iv: IndexView, name: Seq<char>)
    requires
        iv.wf(),
        iv.types.len() <= usize::MAX,
    ensures
        add_ref_spec(iv, name).0.wf(),
        add_ref_spec(iv, name).1 < add_ref_spec(iv, name).0.types.len(),
        add_ref_spec(iv, name).0.types[add_ref_spec(iv, name).1 as int].name == name,
        add_ref_spec(iv, name).0.type_ids.contains_key(name),
        iv.types.len() <= add_ref_spec(iv, name).0.types.len(),
        forall|i: int| 0 <= i < iv.types.len() ==> add_ref_spec(iv, name).0.types[i] == iv.types[i],
        forall|n2: Seq<char>| #[trigger] iv.type_ids.contains_key(n2)
            ==> add_ref_spec(iv, name).0.type_ids.contains_key(n2)
                && add_ref_spec(iv, name).0.type_ids[n2] == iv.type_ids[n2],
        add_ref_spec(iv, name).0.files == iv.files,
        add_ref_spec(iv, name).0.file_ids == iv.file_ids,
        add_ref_spec(iv, name).0.packages == iv.packages,
        add_ref_spec(iv, name).0.package_ids == iv.package_ids,
        add_ref_spec(iv, name).0.packages_by_path == iv.packages_by_path,
{
    let (iv2, id) = add_ref_spec(iv, name);
    if !iv.type_ids.contains_key(name) {
        assert forall|i: int| 0 <= i < iv2.types.len() implies iv2.type_ids.contains_key(
            (#[trigger] iv2.types[i]).name,
        ) && iv2.type_ids[iv2.types[i].name] == i by {
            if i < iv.types.len() {
                assert(iv2.types[i] == iv.types[i]);
                assert(iv.type_ids.contains_key(iv.types[i].name));
            }
        }
        assert(iv2.types_wf()) by {
            assert forall|i: int| 0 <= i < iv2.types.len() implies (#[trigger] iv2.types[i]).wf(
                iv2.types.len() as int,
                iv2.files.len() as int,
            ) by {
                if i < iv.types.len() {
                    assert(iv.types[i].wf(iv.types.len() as int, iv.files.len() as int));
                }
            }
        }
    }
}

/// [`intern_file_spec`] preserves well-formedness, returns a valid file id
/// for the path, and leaves the type storage alone.
pub proof fn lemma_intern_file_spec_wf(iv: IndexView, path: Seq<char>)
    requires
        iv.wf(),
        iv.files.len() <= usize::MAX,
    ensures
        intern_file_spec(iv, path).0.wf(),
        intern_file_spec(iv, path).1 < intern_file_spec(iv, path).0.files.len(),
        intern_file_spec(iv, path).0.files[intern_file_spec(iv, path).1 as int] == path,
        iv.files.len() <= intern_file_spec(iv, path).0.files.len(),
        intern_file_spec(iv, path).0.types == iv.types,
        intern_file_spec(iv, path).0.type_ids == iv.type_ids,
        intern_file_spec(iv, path).0.packages == iv.packages,
        intern_file_spec(iv, path).0.package_ids == iv.package_ids,
        intern_file_spec(iv, path).0.packages_by_path == iv.packages_by_path,
{
    let (iv2, id) = intern_file_spec(iv, path);
    if !iv.file_ids.contains_key(path) {
        assert forall|i: int| 0 <= i < iv2.files.len() implies iv2.file_ids.contains_key(
            #[trigger] iv2.files[i],
        ) && iv2.file_ids[iv2.files[i]] == i by {
            if i < iv.files.len() {
                assert(iv2.files[i] == iv.files[i]);
                assert(iv.file_ids.contains_key(iv.files[i]));
            }
        }
        assert(iv2.types_wf()) by {
            assert forall|i: int| 0 <= i < iv2.types.len() implies (#[trigger] iv2.types[i]).wf(
                iv2.types.len() as int,
                iv2.files.len() as int,
            ) by {
                assert(iv.types[i].wf(iv.types.len() as int, iv.files.len() as int));
                assert forall|j: int| 0 <= j < iv2.types[i].decls.len() implies (
                #[trigger] iv2.types[i].decls[j]).wf(
                    iv2.types.len() as int,
                    iv2.files.len() as int,
                ) by {
                    assert(iv.types[i].decls[j].wf(iv.types.len() as int, iv.files.len() as int));
                }
            }
        }
    }
}

/// [`attach_decl_spec`] preserves well-formedness when the declaration is
/// well formed, and the type it returns carries the declaration.
pub proof fn lemma_attach_decl_spec_wf(iv: IndexView, name: Seq<char>, d: DeclView)
    requires
        iv.wf(),
        iv.types.len() <= usize::MAX,
        d.wf(iv.types.len() as int, iv.files.len() as int),
    ensures
        attach_decl_spec(iv, name, d).0.wf(),
        attach_decl_spec(iv, name, d).1 < attach_decl_spec(iv, name, d).0.types.len(),
        attach_decl_spec(iv, name, d).0.types[attach_decl_spec(iv, name, d).1 as int].name == name,
        origin_of(attach_decl_spec(iv, name, d).0.types[attach_decl_spec(iv, name, d).1 as int])
            == TypeOrigin::Local,
        attach_decl_spec(iv, name, d).0.files == iv.files,
{
    let (iv2, id) = attach_decl_spec(iv, name, d);
    if iv.type_ids.contains_key(name) {
        assert forall|n2: Seq<char>| #[trigger] iv2.type_ids.contains_key(n2) implies iv2.type_ids[n2]
            < iv2.types.len() && iv2.types[iv2.type_ids[n2] as int].name == n2 by {
            assert(iv.type_ids.contains_key(n2));
        }
        assert(iv2.types_wf()) by {
            assert forall|i: int| 0 <= i < iv2.types.len() implies (#[trigger] iv2.types[i]).wf(
                iv2.types.len() as int,
                iv2.files.len() as int,
            ) by {
                assert(iv.types[i].wf(iv.types.len() as int, iv.files.len() as int));
                assert forall|j: int| 0 <= j < iv2.types[i].decls.len() implies (
                #[trigger] iv2.types[i].decls[j]).wf(
                    iv2.types.len() as int,
                    iv2.files.len() as int,
                ) by {
                    if i != id || j < iv.types[i].decls.len() {
                        assert(iv2.types[i].decls[j] == iv.types[i].decls[j]);
                        assert(iv.types[i].decls[j].wf(
                            iv.types.len() as int,
                            iv.files.len() as int,
                        ));
                    } else {
                        assert(iv2.types[i].decls[j] == d);
                    }
                }
            }
        }
    } else {
        assert forall|i: int| 0 <= i < iv2.types.len() implies iv2.type_ids.contains_key(
            (#[trigger] iv2.types[i]).name,
        ) && iv2.type_ids[iv2.types[i].name] == i by {
            if i < iv.types.len() {
                assert(iv2.types[i] == iv.types[i]);
                assert(iv.type_ids.contains_key(iv.types[i].name));
            }
        }
        assert(iv2.types_wf()) by {
            assert forall|i: int| 0 <= i < iv2.types.len() implies (#[trigger] iv2.types[i]).wf(
                iv2.types.len() as int,
                iv2.files.len() as int,
            ) by {
                if i < iv.types.len() {
                    assert(iv.types[i].wf(iv.types.len() as int, iv.files.len() as int));
                    assert forall|j: int| 0 <= j < iv2.types[i].decls.len() implies (
                    #[trigger] iv2.types[i].decls[j]).wf(
                        iv2.types.len() as int,
                        iv2.files.len() as int,
                    ) by {
                        assert(iv.types[i].decls[j].wf(
                            iv.types.len() as int,
                            iv.files.len() as int,
                        ));
                    }
                } else {
                    assert(iv2.types[i].decls =~= seq![d]);
                }
            }
        }
    }
}

impl Index {
    /// Record a package.  Always succeeds; a repeated name keeps both
    /// packages in storage while the name entry keeps the last write.
    pub fn add_package(&mut self, name: &str, path_prefix: &str)
        requires
            old(self)@.wf(),
        ensures
            final(self)@ == add_package_spec(old(self)@, name@, path_prefix@),
            final(self)@.wf(),
    {
        let package_id = self.packages.len();
        self.packages.push(
            Package { name: name.to_owned(), path_prefix: path_prefix.to_owned() },
        );
        self.package_ids.insert(name.to_owned(), package_id);
        trie_insert(&mut self.packages_by_path, path_prefix.to_owned(), package_id);
        proof {
            let iv2 = add_package_spec(old(self)@, name@, path_prefix@);
            assert(self@.packages =~~= iv2.packages);
            assert(self@ =~~= iv2);
            assert forall|n2: Seq<char>| #[trigger] self@.package_ids.contains_key(n2)
                implies self@.package_ids[n2] < self@.packages.len()
                    && self@.packages[self@.package_ids[n2] as int].name == n2 by {
                if n2 != name@ {
                    assert(old(self)@.package_ids.contains_key(n2));
                }
            }
            assert forall|p: Seq<char>| #[trigger] self@.packages_by_path.contains_key(p)
                implies self@.packages_by_path[p] < self@.packages.len()
                    && self@.packages[self@.packages_by_path[p] as int].path_prefix == p by {
                if p != path_prefix@ {
                    assert(old(self)@.packages_by_path.contains_key(p));
                }
            }
        }
    }

    /// Get the id of the package recorded under a name, if any.
    pub fn package_id(&self, name: &str) -> (r: Option<PackageId>)
        ensures
            match r {
                Some(id) => self@.package_ids.contains_key(name@) && id
                    == self@.package_ids[name@],
                None => !self@.package_ids.contains_key(name@),
            },
    {
        match self.package_ids.get(name) {
            Some(id) => Some(*id),
            None => None,
        }
    }

    /// Find the package whose registered path prefix is the longest prefix
    /// of the given file path.
    pub fn package_id_for_path(&self, path: &str) -> (r: Option<PackageId>)
        ensures
            match r {
                Some(id) => exists|p: Seq<char>|
                    #[trigger] self@.packages_by_path.contains_key(p) && p.is_prefix_of(path@)
                        && self@.packages_by_path[p] == id
                        && (forall|q: Seq<char>|
                            #[trigger] self@.packages_by_path.contains_key(q) && q.is_prefix_of(
                                path@,
                            ) ==> q.len() <= p.len()),
                None => forall|q: Seq<char>|
                    #[trigger] self@.packages_by_path.contains_key(q) ==> !q.is_prefix_of(path@),
            },
    {
        let r = trie_longest_prefix_value(&self.packages_by_path, path);
        proof {
            assert(self@.packages_by_path == trie_entries(self.packages_by_path));
        }
        r
    }

    /// Add a declaration site for `name`.  The file path is interned, every
    /// referenced name is resolved (or created as a placeholder) first, in
    /// order, and the finished declaration is attached to the named type.
    /// Returns the id of that type.  Always succeeds.
    pub fn add_declaration(
        &mut self,
        name: &str,
        kind: Kind,
        file: &str,
        point: Point,
        references: &Vec<(String, Point)>,
    ) -> (r: TypeId)
        requires
            old(self)@.wf(),
        ensures
            final(self)@ == add_decl_spec(
                old(self)@,
                name@,
                kind,
                file@,
                point,
                refs_view(references@),
            ).0,
            r == add_decl_spec(old(self)@, name@, kind, file@, point, refs_view(references@)).1,
            final(self)@.wf(),
    {
        let ghost iv0 = self@;
        let ghost rv = refs_view(references@);
        proof {
            vstd::std_specs::vec::axiom_spec_len(&self.files);
        }

        // Intern the file path.
        let file_id: usize;
        let existing_file = self.file_ids.get(file);
        match existing_file {
            Some(v) => {
                file_id = *v;
            }
            None => {
                file_id = self.files.len();
                self.files.push(file.to_owned());
                self.file_ids.insert(file.to_owned(), file_id);
            }
        }
        proof {
            assert(self@.files =~~= intern_file_spec(iv0, file@).0.files);
            assert(self@ =~~= intern_file_spec(iv0, file@).0);
            lemma_intern_file_spec_wf(iv0, file@);
        }
        let ghost iv1 = self@;

        // Resolve the references in order; each one records an edge.
        let mut dependencies: Vec<(TypeId, Point)> = Vec::new();
        proof {
            assert(rv.skip(0) =~= rv);
            assert(dependencies@ + add_refs_spec(iv1, rv).1 =~= add_refs_spec(iv1, rv).1);
        }
        let mut i: usize = 0;
        while i < references.len()
            invariant
                self@.wf(),
                i <= references.len(),
                rv == refs_view(references@),
                rv.len() == references@.len(),
                self@.files == iv1.files,
                file_id < self@.files.len(),
                add_refs_spec(iv1, rv).0 == add_refs_spec(self@, rv.skip(i as int)).0,
                add_refs_spec(iv1, rv).1 == dependencies@ + add_refs_spec(
                    self@,
                    rv.skip(i as int),
                ).1,
                dependencies@.len() == i,
                forall|k: int| 0 <= k < dependencies@.len()
                    ==> (#[trigger] dependencies@[k]).0 < self@.types.len(),
            decreases references.len() - i,
        {
            proof {
                vstd::std_specs::vec::axiom_spec_len(&self.types);
            }
            let ghost pre = self@;
            let reference = &references[i];
            let type_id = self.add_reference(reference.0.as_str());
            dependencies.push((type_id, reference.1));
            proof {
                lemma_add_ref_spec_wf(pre, reference.0@);
                assert(rv.skip(i as int).first() == rv[i as int]);
                assert(rv.skip(i as int).drop_first() =~= rv.skip(i + 1 as int));
                assert(add_refs_spec(pre, rv.skip(i as int)).1 == seq![
                    (type_id, reference.1),
                ] + add_refs_spec(self@, rv.skip(i + 1 as int)).1);
                assert(dependencies@ + add_refs_spec(self@, rv.skip(i + 1 as int)).1 =~= (
                dependencies@.drop_last() + (seq![(type_id, reference.1)] + add_refs_spec(
                    self@,
                    rv.skip(i + 1 as int),
                ).1)));
            }
            i += 1;
        }
        proof {
            assert(rv.skip(references@.len() as int) =~= Seq::<(Seq<char>, Point)>::empty());
            assert(add_refs_spec(iv1, rv).0 == self@);
            assert(add_refs_spec(iv1, rv).1 =~= dependencies@);
        }
        let ghost iv2 = self@;
        let ghost d = DeclView { kind: kind, point: point, file: file_id, deps: dependencies@ };

        let declaration = Declaration { kind, point, file: file_id, dependencies };
        proof {
            vstd::std_specs::vec::axiom_spec_len(&self.types);
            assert(decl_view(declaration) == d);
            lemma_attach_decl_spec_wf(iv2, name@, d);
        }

        // Attach the declaration to the named type, creating it if needed.
        let existing_type = self.type_ids.get(name);
        match existing_type {
            Some(v) => {
                let id = *v;
                self.types[id].declarations.push(declaration);
                proof {
                    assert(self@.types =~~= attach_decl_spec(iv2, name@, d).0.types);
                    assert(self@ =~~= attach_decl_spec(iv2, name@, d).0);
                }
                id
            }
            None => {
                let id = self.types.len();
                self.types.push(Type { name: name.to_owned(), declarations: vec![declaration] });
                self.type_ids.insert(name.to_owned(), id);
                proof {
                    assert(self@.types =~~= attach_decl_spec(iv2, name@, d).0.types);
                    assert(self@ =~~= attach_decl_spec(iv2, name@, d).0);
                }
                id
            }
        }
    }
}

} // verus!
