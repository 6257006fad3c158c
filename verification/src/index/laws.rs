//! Laws of the index and of the walk, stated and proved once for every
//! input.

use crate::Point;
use crate::index::cursor::{
    IndexCursor, ItemView, Segment, inner_types_visited, lemma_budget_insert, lemma_finish_decl,
    lemma_inner_grow, lemma_inner_prefix, lemma_inner_update_top, lemma_next_decl, lemma_next_dep,
    lemma_pop_decl, lemma_pop_type, lemma_push_decl, lemma_push_dep, lemma_push_type, pop_advance,
    seg_idx, seg_type, stack_pos_wf, stack_wf, types_bounded, visited_set, walk_items,
    walk_measure,
};
use crate::index::{
    DeclView, Index, IndexView, Kind, TypeOrigin, TypeView, add_decl_spec, add_ref_spec,
    add_refs_spec, attach_decl_spec, intern_file_spec, lemma_add_ref_spec_wf,
    lemma_intern_file_spec_wf, origin_of,
};
use vstd::prelude::*;

verus! {

/// Repeated references to one name before any declaration of it always
/// resolve to the same id, and the second resolution changes nothing.
pub proof fn lemma_add_reference_idempotent(iv: IndexView, name: Seq<char>)
    ensures
        ({
            let (iv1, id1) = add_ref_spec(iv, name);
            let (iv2, id2) = add_ref_spec(iv1, name);
            &&& iv2 == iv1
            &&& id2 == id1
        }),
{
}

/// Resolving a reference never touches an existing type: in particular it
/// never changes any type's origin, and a type it creates is external.
pub proof fn lemma_reference_keeps_origins(iv: IndexView, name: Seq<char>)
    requires
        iv.types.len() <= usize::MAX,
    ensures
        forall|t: int| 0 <= t < iv.types.len() ==> add_ref_spec(iv, name).0.types[t]
            == iv.types[t],
        !iv.type_ids.contains_key(name) ==> origin_of(
            add_ref_spec(iv, name).0.types[add_ref_spec(iv, name).1 as int],
        ) == TypeOrigin::External,
{
    if !iv.type_ids.contains_key(name) {
        assert(add_ref_spec(iv, name).0.types[add_ref_spec(iv, name).1 as int].decls.len() == 0);
    }
}

/// Resolving a list of references only appends external placeholder types;
/// every existing type and the file storage stay as they were.
pub proof fn lemma_add_refs_types(iv: IndexView, refs: Seq<(Seq<char>, Point)>)
    requires
        iv.wf(),
        iv.types.len() + refs.len() <= usize::MAX,
    ensures
        ({
            let iv2 = add_refs_spec(iv, refs).0;
            &&& iv2.wf()
            &&& iv.types.len() <= iv2.types.len() <= iv.types.len() + refs.len()
            &&& forall|t: int| 0 <= t < iv.types.len() ==> iv2.types[t] == iv.types[t]
            &&& forall|t: int| iv.types.len() <= t < iv2.types.len()
                ==> (#[trigger] iv2.types[t]).decls.len() == 0
            &&& iv2.files == iv.files
        }),
    decreases refs.len(),
{
    if refs.len() > 0 {
        let (iv1, id) = add_ref_spec(iv, refs.first().0);
        lemma_add_ref_spec_wf(iv, refs.first().0);
        lemma_add_refs_types(iv1, refs.drop_first());
        let iv2 = add_refs_spec(iv, refs).0;
        assert forall|t: int| iv.types.len() <= t < iv2.types.len() implies (
        #[trigger] iv2.types[t]).decls.len() == 0 by {
            if t < iv1.types.len() {
                assert(iv2.types[t] == iv1.types[t]);
            }
        }
    }
}

/// A type's origin moves from external to local exactly once, at its first
/// declaration, and never back: adding a declaration for `name` makes the
/// named type local, leaves every other existing type untouched, and every
/// type it creates besides the named one is an external placeholder.
pub proof fn lemma_origin_monotonic(
    iv: IndexView,
    name: Seq<char>,
    kind: Kind,
    file: Seq<char>,
    point: Point,
    refs: Seq<(Seq<char>, Point)>,
)
    requires
        iv.wf(),
        iv.types.len() + refs.len() < usize::MAX,
        iv.files.len() <= usize::MAX,
    ensures
        ({
            let (iv2, id) = add_decl_spec(iv, name, kind, file, point, refs);
            &&& origin_of(iv2.types[id as int]) == TypeOrigin::Local
            &&& iv2.types[id as int].name == name
            &&& forall|t: int| 0 <= t < iv.types.len() && t != id ==> iv2.types[t] == iv.types[t]
            &&& forall|t: int| 0 <= t < iv.types.len() && origin_of(#[trigger] iv.types[t])
                == TypeOrigin::Local ==> origin_of(iv2.types[t]) == TypeOrigin::Local
            &&& forall|t: int| iv.types.len() <= t < iv2.types.len() && t != id ==> origin_of(
                #[trigger] iv2.types[t],
            ) == TypeOrigin::External
        }),
{
    let (ivf, fid) = intern_file_spec(iv, file);
    lemma_intern_file_spec_wf(iv, file);
    let (ivr, deps) = add_refs_spec(ivf, refs);
    lemma_add_refs_types(ivf, refs);
    let d = DeclView { kind: kind, point: point, file: fid, deps: deps };
    let (iv2, id) = attach_decl_spec(ivr, name, d);
    if ivr.type_ids.contains_key(name) {
        assert(id < ivr.types.len());
        assert(origin_of(iv2.types[id as int]) == TypeOrigin::Local) by {
            assert(iv2.types[id as int].decls.len() > 0);
        }
        assert forall|t: int| iv.types.len() <= t < iv2.types.len() && t != id implies origin_of(
            #[trigger] iv2.types[t],
        ) == TypeOrigin::External by {
            assert(iv2.types[t] == ivr.types[t]);
            assert(ivr.types[t].decls.len() == 0);
        }
    } else {
        assert(id == ivr.types.len());
        assert(origin_of(iv2.types[id as int]) == TypeOrigin::Local) by {
            assert(iv2.types[id as int].decls =~= seq![d]);
        }
        assert forall|t: int| iv.types.len() <= t < iv2.types.len() && t != id implies origin_of(
            #[trigger] iv2.types[t],
        ) == TypeOrigin::External by {
            assert(iv2.types[t] == ivr.types[t]);
            assert(ivr.types[t].decls.len() == 0);
        }
    }
}

/// Every dependency edge stored anywhere in the type table targets an
/// existing type; true of every well-formed index.
pub open spec fn deps_targets_wf(types: Seq<TypeView>) -> bool {
    forall|i: int, j: int, k: int|
        0 <= i < types.len() && 0 <= j < types[i].decls.len() && 0 <= k
            < types[i].decls[j].deps.len() ==> (#[trigger] types[i].decls[j].deps[k]).0
            < types.len()
}

/// A well-formed index has well-targeted dependency edges.
pub proof fn lemma_wf_deps_targets(iv: IndexView)
    requires
        iv.wf(),
    ensures
        deps_targets_wf(iv.types),
{
    assert forall|i: int, j: int, k: int|
        0 <= i < iv.types.len() && 0 <= j < iv.types[i].decls.len() && 0 <= k
            < iv.types[i].decls[j].deps.len() implies (#[trigger] iv.types[i].decls[j].deps[k]).0
        < iv.types.len() by {
        assert(iv.types[i].wf(iv.types.len() as int, iv.files.len() as int));
        assert(iv.types[i].decls[j].wf(iv.types.len() as int, iv.files.len() as int));
    }
}

/// The id a type item carries, zero for the other items.
pub open spec fn type_item_id(it: ItemView) -> usize {
    match it {
        ItemView::Type(t, name, origin) => t,
        ItemView::Declaration(d) => 0,
        ItemView::Dependency(t, name, point) => 0,
    }
}

/// The target id a dependency item carries, zero for the other items.
pub open spec fn dep_item_target(it: ItemView) -> usize {
    match it {
        ItemView::Type(t, name, origin) => 0,
        ItemView::Declaration(d) => 0,
        ItemView::Dependency(t, name, point) => t,
    }
}

/// No type item of `w` carries an id in `visited`, and no two type items of
/// `w` carry the same id.
pub open spec fn type_items_fresh(w: Seq<(ItemView, int)>, visited: Set<usize>) -> bool {
    &&& forall|a: int| 0 <= a < w.len() && (#[trigger] w[a]).0 is Type ==> !visited.contains(
        type_item_id(w[a].0),
    )
    &&& forall|a: int, b: int|
        0 <= a < b < w.len() && (#[trigger] w[a]).0 is Type && (#[trigger] w[b]).0 is Type
            ==> type_item_id(w[a].0) != type_item_id(w[b].0)
}

/// Prepending the type item that was just entered keeps the walk's type
/// items fresh and distinct.
proof fn lemma_fresh_cons_type(x: (ItemView, int), w2: Seq<(ItemView, int)>, visited: Set<usize>, t: usize)
    requires
        type_items_fresh(w2, visited.insert(t)),
        !visited.contains(t),
        x.0 is Type,
        type_item_id(x.0) == t,
    ensures
        type_items_fresh(seq![x] + w2, visited),
{
    let w = seq![x] + w2;
    assert forall|a: int| 0 <= a < w.len() && (#[trigger] w[a]).0 is Type implies !visited
        .contains(type_item_id(w[a].0)) by {
        if a > 0 {
            assert(w[a] == w2[a - 1]);
            assert(!visited.insert(t).contains(type_item_id(w2[a - 1].0)));
        }
    }
    assert forall|a: int, b: int|
        0 <= a < b < w.len() && (#[trigger] w[a]).0 is Type && (#[trigger] w[b]).0 is Type implies
        type_item_id(w[a].0) != type_item_id(w[b].0) by {
        if a == 0 {
            assert(w[b] == w2[b - 1]);
            assert(!visited.insert(t).contains(type_item_id(w2[b - 1].0)));
        } else {
            assert(w[a] == w2[a - 1]);
            assert(w[b] == w2[b - 1]);
        }
    }
}

/// Prepending a non-type item keeps the walk's type items fresh and
/// distinct.
proof fn lemma_fresh_cons_other(x: (ItemView, int), w2: Seq<(ItemView, int)>, visited: Set<usize>)
    requires
        type_items_fresh(w2, visited),
        !(x.0 is Type),
    ensures
        type_items_fresh(seq![x] + w2, visited),
{
    let w = seq![x] + w2;
    assert forall|a: int| 0 <= a < w.len() && (#[trigger] w[a]).0 is Type implies !visited
        .contains(type_item_id(w[a].0)) by {
        assert(w[a] == w2[a - 1]);
    }
    assert forall|a: int, b: int|
        0 <= a < b < w.len() && (#[trigger] w[a]).0 is Type && (#[trigger] w[b]).0 is Type implies
        type_item_id(w[a].0) != type_item_id(w[b].0) by {
        assert(w[a] == w2[a - 1]);
        assert(w[b] == w2[b - 1]);
    }
}

/// A walk enters each type at most once: no two type items it emits carry
/// the same id, and none carries an id already marked as visited.  On a
/// cyclic graph this is what keeps the back edge from re-expanding its
/// target.
pub proof fn lemma_type_items_once(types: Seq<TypeView>, path: Seq<Segment>, visited: Set<usize>)
    requires
        stack_wf(types, path),
        types_bounded(types),
        deps_targets_wf(types),
    ensures
        type_items_fresh(walk_items(types, path, visited), visited),
    decreases walk_measure(types, path, visited),
{
    let w = walk_items(types, path, visited);
    if path.len() == 0 {
    } else {
        let p = path.len() - 1;
        assert(stack_pos_wf(types, path, p as int));
        match path[p] {
            Segment::Type(t) => {
                if visited.contains(t) {
                    lemma_pop_type(types, path);
                    lemma_type_items_once(types, pop_advance(path), visited);
                } else {
                    let tv = types[t as int];
                    let x = (ItemView::Type(t, tv.name, origin_of(tv)), p as int);
                    if tv.decls.len() > 0 {
                        lemma_push_decl(types, path);
                        lemma_budget_insert(types, visited, t, types.len() as int);
                        lemma_type_items_once(
                            types,
                            path.push(Segment::Declaration(0)),
                            visited.insert(t),
                        );
                        lemma_fresh_cons_type(
                            x,
                            walk_items(types, path.push(Segment::Declaration(0)), visited.insert(t)),
                            visited,
                            t,
                        );
                    } else {
                        lemma_pop_type(types, path);
                        lemma_budget_insert(types, visited, t, types.len() as int);
                        lemma_type_items_once(types, pop_advance(path), visited.insert(t));
                        lemma_fresh_cons_type(
                            x,
                            walk_items(types, pop_advance(path), visited.insert(t)),
                            visited,
                            t,
                        );
                    }
                }
            }
            Segment::Declaration(i) => {
                let tv = types[seg_type(path[p - 1]) as int];
                if i >= tv.decls.len() {
                    lemma_pop_decl(types, path);
                    lemma_type_items_once(types, path.drop_last(), visited);
                } else {
                    let x = (ItemView::Declaration(tv.decls[i as int]), p as int);
                    if tv.decls[i as int].deps.len() > 0 {
                        lemma_push_dep(types, path);
                        lemma_type_items_once(types, path.push(Segment::Dependency(0)), visited);
                        lemma_fresh_cons_other(
                            x,
                            walk_items(types, path.push(Segment::Dependency(0)), visited),
                            visited,
                        );
                    } else if i + 1 < tv.decls.len() {
                        lemma_next_decl(types, path);
                        lemma_type_items_once(
                            types,
                            path.update(p as int, Segment::Declaration((i + 1) as usize)),
                            visited,
                        );
                        lemma_fresh_cons_other(
                            x,
                            walk_items(
                                types,
                                path.update(p as int, Segment::Declaration((i + 1) as usize)),
                                visited,
                            ),
                            visited,
                        );
                    } else {
                        lemma_pop_decl(types, path);
                        lemma_type_items_once(types, path.drop_last(), visited);
                        lemma_fresh_cons_other(
                            x,
                            walk_items(types, path.drop_last(), visited),
                            visited,
                        );
                    }
                }
            }
            Segment::Dependency(j) => {
                let k = seg_idx(path[p - 1]);
                let t = seg_type(path[p - 2]);
                let dv = types[t as int].decls[k as int];
                if j >= dv.deps.len() {
                    lemma_finish_decl(types, path);
                    lemma_type_items_once(
                        types,
                        path.drop_last().drop_last().push(
                            Segment::Declaration((k + 1) as usize),
                        ),
                        visited,
                    );
                } else {
                    let target = dv.deps[j as int].0;
                    let x = (
                        ItemView::Dependency(target, types[target as int].name, dv.deps[j as int].1),
                        p as int,
                    );
                    if !visited.contains(target) {
                        assert(stack_pos_wf(types, path, p - 1));
                        assert(stack_pos_wf(types, path, p - 2));
                        assert(types[t as int].decls[k as int].deps[j as int].0 < types.len());
                        lemma_push_type(types, path, target);
                        lemma_type_items_once(types, path.push(Segment::Type(target)), visited);
                        lemma_fresh_cons_other(
                            x,
                            walk_items(types, path.push(Segment::Type(target)), visited),
                            visited,
                        );
                    } else {
                        lemma_next_dep(types, path);
                        lemma_type_items_once(
                            types,
                            path.update(p as int, Segment::Dependency((j + 1) as usize)),
                            visited,
                        );
                        lemma_fresh_cons_other(
                            x,
                            walk_items(
                                types,
                                path.update(p as int, Segment::Dependency((j + 1) as usize)),
                                visited,
                            ),
                            visited,
                        );
                    }
                }
            }
        }
    }
}

/// Item depths follow the stack grammar: a type item sits at a depth
/// divisible by three, its declarations one deeper, their dependencies one
/// deeper still.  Together with [`expansions_follow_edges`] this pins the
/// depth steps of the walk: a declaration is one level under its type and a
/// dependency one level under its declaration.
pub open spec fn depths_classified(w: Seq<(ItemView, int)>) -> bool {
    forall|a: int| 0 <= a < w.len() ==> {
        &&& ((#[trigger] w[a]).0 is Type ==> w[a].1 % 3 == 0)
        &&& (w[a].0 is Declaration ==> w[a].1 % 3 == 1)
        &&& (w[a].0 is Dependency ==> w[a].1 % 3 == 2)
        &&& w[a].1 >= 0
    }
}

proof fn lemma_class_cons(x: (ItemView, int), w2: Seq<(ItemView, int)>)
    requires
        depths_classified(w2),
        x.0 is Type ==> x.1 % 3 == 0,
        x.0 is Declaration ==> x.1 % 3 == 1,
        x.0 is Dependency ==> x.1 % 3 == 2,
        x.1 >= 0,
    ensures
        depths_classified(seq![x] + w2),
{
    let w = seq![x] + w2;
    assert forall|a: int| 0 <= a < w.len() implies {
        &&& ((#[trigger] w[a]).0 is Type ==> w[a].1 % 3 == 0)
        &&& (w[a].0 is Declaration ==> w[a].1 % 3 == 1)
        &&& (w[a].0 is Dependency ==> w[a].1 % 3 == 2)
        &&& w[a].1 >= 0
    } by {
        if a > 0 {
            assert(w[a] == w2[a - 1]);
        }
    }
}

/// Every item a walk emits carries a depth that fits its kind in the
/// type / declaration / dependency rhythm of the traversal.
pub proof fn lemma_item_depths(types: Seq<TypeView>, path: Seq<Segment>, visited: Set<usize>)
    requires
        stack_wf(types, path),
        types_bounded(types),
        deps_targets_wf(types),
    ensures
        depths_classified(walk_items(types, path, visited)),
    decreases walk_measure(types, path, visited),
{
    if path.len() == 0 {
    } else {
        let p = path.len() - 1;
        assert(stack_pos_wf(types, path, p as int));
        match path[p] {
            Segment::Type(t) => {
                if visited.contains(t) {
                    lemma_pop_type(types, path);
                    lemma_item_depths(types, pop_advance(path), visited);
                } else {
                    let tv = types[t as int];
                    let x = (ItemView::Type(t, tv.name, origin_of(tv)), p as int);
                    if tv.decls.len() > 0 {
                        lemma_push_decl(types, path);
                        lemma_budget_insert(types, visited, t, types.len() as int);
                        lemma_item_depths(
                            types,
                            path.push(Segment::Declaration(0)),
                            visited.insert(t),
                        );
                        lemma_class_cons(
                            x,
                            walk_items(types, path.push(Segment::Declaration(0)), visited.insert(t)),
                        );
                    } else {
                        lemma_pop_type(types, path);
                        lemma_budget_insert(types, visited, t, types.len() as int);
                        lemma_item_depths(types, pop_advance(path), visited.insert(t));
                        lemma_class_cons(x, walk_items(types, pop_advance(path), visited.insert(t)));
                    }
                }
            }
            Segment::Declaration(i) => {
                let tv = types[seg_type(path[p - 1]) as int];
                if i >= tv.decls.len() {
                    lemma_pop_decl(types, path);
                    lemma_item_depths(types, path.drop_last(), visited);
                } else {
                    let x = (ItemView::Declaration(tv.decls[i as int]), p as int);
                    if tv.decls[i as int].deps.len() > 0 {
                        lemma_push_dep(types, path);
                        lemma_item_depths(types, path.push(Segment::Dependency(0)), visited);
                        lemma_class_cons(
                            x,
                            walk_items(types, path.push(Segment::Dependency(0)), visited),
                        );
                    } else if i + 1 < tv.decls.len() {
                        lemma_next_decl(types, path);
                        lemma_item_depths(
                            types,
                            path.update(p as int, Segment::Declaration((i + 1) as usize)),
                            visited,
                        );
                        lemma_class_cons(
                            x,
                            walk_items(
                                types,
                                path.update(p as int, Segment::Declaration((i + 1) as usize)),
                                visited,
                            ),
                        );
                    } else {
                        lemma_pop_decl(types, path);
                        lemma_item_depths(types, path.drop_last(), visited);
                        lemma_class_cons(x, walk_items(types, path.drop_last(), visited));
                    }
                }
            }
            Segment::Dependency(j) => {
                let k = seg_idx(path[p - 1]);
                let t = seg_type(path[p - 2]);
                let dv = types[t as int].decls[k as int];
                if j >= dv.deps.len() {
                    lemma_finish_decl(types, path);
                    lemma_item_depths(
                        types,
                        path.drop_last().drop_last().push(Segment::Declaration((k + 1) as usize)),
                        visited,
                    );
                } else {
                    let target = dv.deps[j as int].0;
                    let x = (
                        ItemView::Dependency(target, types[target as int].name, dv.deps[j as int].1),
                        p as int,
                    );
                    if !visited.contains(target) {
                        assert(stack_pos_wf(types, path, p - 1));
                        assert(stack_pos_wf(types, path, p - 2));
                        assert(types[t as int].decls[k as int].deps[j as int].0 < types.len());
                        lemma_push_type(types, path, target);
                        lemma_item_depths(types, path.push(Segment::Type(target)), visited);
                        lemma_class_cons(
                            x,
                            walk_items(types, path.push(Segment::Type(target)), visited),
                        );
                    } else {
                        lemma_next_dep(types, path);
                        lemma_item_depths(
                            types,
                            path.update(p as int, Segment::Dependency((j + 1) as usize)),
                            visited,
                        );
                        lemma_class_cons(
                            x,
                            walk_items(
                                types,
                                path.update(p as int, Segment::Dependency((j + 1) as usize)),
                                visited,
                            ),
                        );
                    }
                }
            }
        }
    }
}

/// When the next emitted item is a type item, the stack's top is exactly
/// that type, still unentered, and the item's depth is the current stack
/// depth: type items come only from a type segment waiting on top.
pub proof fn lemma_head_type_item(types: Seq<TypeView>, path: Seq<Segment>, visited: Set<usize>)
    requires
        stack_wf(types, path),
        types_bounded(types),
        inner_types_visited(path, visited),
    ensures
        ({
            let w = walk_items(types, path, visited);
            w.len() > 0 && w[0].0 is Type ==> {
                &&& path.len() > 0
                &&& path.last() == Segment::Type(type_item_id(w[0].0))
                &&& !visited.contains(type_item_id(w[0].0))
                &&& w[0].1 == path.len() - 1
            }
        }),
    decreases walk_measure(types, path, visited),
{
    let w = walk_items(types, path, visited);
    if path.len() == 0 {
    } else {
        let p = path.len() - 1;
        assert(stack_pos_wf(types, path, p as int));
        match path[p] {
            Segment::Type(t) => {
                if visited.contains(t) {
                    lemma_pop_type(types, path);
                    let q2 = pop_advance(path);
                    lemma_inner_prefix(path, q2, visited);
                    lemma_head_type_item(types, q2, visited);
                    if w.len() > 0 && w[0].0 is Type {
                        assert(q2.len() > 0);
                        assert(q2.last() == Segment::Type(type_item_id(w[0].0)));
                        assert((p as int) % 3 == 0);
                        assert(q2.len() - 1 == p - 1);
                        assert(stack_pos_wf(types, q2, q2.len() - 1));
                        assert(false);
                    }
                }
            }
            Segment::Declaration(i) => {
                let tv = types[seg_type(path[p - 1]) as int];
                if i >= tv.decls.len() {
                    lemma_pop_decl(types, path);
                    let q2 = path.drop_last();
                    lemma_inner_prefix(path, q2, visited);
                    lemma_head_type_item(types, q2, visited);
                    if w.len() > 0 && w[0].0 is Type {
                        assert(q2.last() == path[p - 1]);
                        assert((p - 1) % 3 == 0);
                        assert(visited.contains(seg_type(path[p - 1])));
                        assert(false);
                    }
                }
            }
            Segment::Dependency(j) => {
                let k = seg_idx(path[p - 1]);
                let t = seg_type(path[p - 2]);
                let dv = types[t as int].decls[k as int];
                if j >= dv.deps.len() {
                    lemma_finish_decl(types, path);
                    let q2 = path.drop_last().drop_last().push(
                        Segment::Declaration((k + 1) as usize),
                    );
                    lemma_inner_prefix(path, q2, visited);
                    lemma_head_type_item(types, q2, visited);
                    if w.len() > 0 && w[0].0 is Type {
                        assert(q2.last() == Segment::Declaration((k + 1) as usize));
                        assert(false);
                    }
                }
            }
        }
    }
}

/// Some declaration of type `a` has a dependency edge to type `b`.
pub open spec fn has_edge(types: Seq<TypeView>, a: usize, b: usize) -> bool {
    exists|j: int, k: int|
        0 <= j < types[a as int].decls.len() && 0 <= k < types[a as int].decls[j].deps.len() && (
        #[trigger] types[a as int].decls[j].deps[k]).0 == b
}

/// Consecutive entries of `p` are joined by dependency edges.
pub open spec fn linked(types: Seq<TypeView>, p: Seq<usize>) -> bool {
    forall|x: int| 0 <= x < p.len() - 1 ==> has_edge(types, #[trigger] p[x], p[x + 1])
}

/// Type `to` is reachable from type `from` over dependency edges.
pub open spec fn reaches(types: Seq<TypeView>, from: usize, to: usize) -> bool {
    exists|p: Seq<usize>|
        #![trigger linked(types, p)]
        p.len() >= 1 && p.first() == from && p.last() == to && linked(types, p)
}

/// Every type reaches itself.
pub proof fn lemma_reaches_self(types: Seq<TypeView>, t: usize)
    ensures
        reaches(types, t, t),
{
    let p = seq![t];
    assert(linked(types, p));
    assert(p.len() >= 1 && p.first() == t && p.last() == t);
}

/// Reachability extends over one more edge.
pub proof fn lemma_reaches_step(types: Seq<TypeView>, from: usize, mid: usize, to: usize)
    requires
        reaches(types, from, mid),
        has_edge(types, mid, to),
    ensures
        reaches(types, from, to),
{
    let p = choose|p: Seq<usize>|
        #![trigger linked(types, p)]
        p.len() >= 1 && p.first() == from && p.last() == mid && linked(types, p);
    let q = p.push(to);
    assert(linked(types, q)) by {
        assert forall|x: int| 0 <= x < q.len() - 1 implies has_edge(types, #[trigger] q[x], q[x + 1]) by {
            if x < p.len() - 1 {
                assert(q[x] == p[x]);
                assert(q[x + 1] == p[x + 1]);
            } else {
                assert(q[x] == p[p.len() - 1]);
                assert(q[x + 1] == to);
            }
        }
    }
    assert(q.len() >= 1 && q.first() == from && q.last() == to);
}

/// Every type segment of the stack is reachable from `root`.
pub open spec fn stack_reachable(types: Seq<TypeView>, path: Seq<Segment>, root: usize) -> bool {
    forall|p: int| 0 <= p < path.len() && p % 3 == 0 ==> reaches(
        types,
        root,
        seg_type(#[trigger] path[p]),
    )
}

proof fn lemma_reach_cons(x: (ItemView, int), w2: Seq<(ItemView, int)>, types: Seq<TypeView>, root: usize)
    requires
        forall|a: int| 0 <= a < w2.len() && (#[trigger] w2[a]).0 is Type ==> reaches(
            types,
            root,
            type_item_id(w2[a].0),
        ),
        x.0 is Type ==> reaches(types, root, type_item_id(x.0)),
    ensures
        forall|a: int|
            0 <= a < (seq![x] + w2).len() && (#[trigger] (seq![x] + w2)[a]).0 is Type ==> reaches(
                types,
                root,
                type_item_id((seq![x] + w2)[a].0),
            ),
{
    let w = seq![x] + w2;
    assert forall|a: int| 0 <= a < w.len() && (#[trigger] w[a]).0 is Type implies reaches(
        types,
        root,
        type_item_id(w[a].0),
    ) by {
        if a > 0 {
            assert(w[a] == w2[a - 1]);
        }
    }
}

/// Soundness of the walk: every type item it emits is reachable from `root`
/// when every type segment on the stack is.  From a fresh cursor this means
/// the walk only ever reports what the root transitively depends on.
#[verifier::rlimit(100)]
pub proof fn lemma_emitted_types_reachable(
    types: Seq<TypeView>,
    path: Seq<Segment>,
    visited: Set<usize>,
    root: usize,
)
    requires
        stack_wf(types, path),
        types_bounded(types),
        deps_targets_wf(types),
        stack_reachable(types, path, root),
    ensures
        forall|a: int|
            0 <= a < walk_items(types, path, visited).len() && (#[trigger] walk_items(
                types,
                path,
                visited,
            )[a]).0 is Type ==> reaches(
                types,
                root,
                type_item_id(walk_items(types, path, visited)[a].0),
            ),
    decreases walk_measure(types, path, visited),
{
    if path.len() == 0 {
    } else {
        let p = path.len() - 1;
        assert(stack_pos_wf(types, path, p as int));
        match path[p] {
            Segment::Type(t) => {
                if visited.contains(t) {
                    lemma_pop_type(types, path);
                    let q2 = pop_advance(path);
                    assert(stack_reachable(types, q2, root)) by {
                        assert forall|p2: int| 0 <= p2 < q2.len() && p2 % 3 == 0 implies reaches(
                            types,
                            root,
                            seg_type(#[trigger] q2[p2]),
                        ) by {
                            assert(q2[p2] == path[p2]);
                        }
                    }
                    lemma_emitted_types_reachable(types, q2, visited, root);
                } else {
                    let tv = types[t as int];
                    let x = (ItemView::Type(t, tv.name, origin_of(tv)), p as int);
                    assert(reaches(types, root, t));
                    if tv.decls.len() > 0 {
                        lemma_push_decl(types, path);
                        lemma_budget_insert(types, visited, t, types.len() as int);
                        let q2 = path.push(Segment::Declaration(0));
                        assert(stack_reachable(types, q2, root)) by {
                            assert forall|p2: int| 0 <= p2 < q2.len() && p2 % 3 == 0 implies
                                reaches(types, root, seg_type(#[trigger] q2[p2])) by {
                                assert(q2[p2] == path[p2]);
                            }
                        }
                        lemma_emitted_types_reachable(types, q2, visited.insert(t), root);
                        lemma_reach_cons(x, walk_items(types, q2, visited.insert(t)), types, root);
                    } else {
                        lemma_pop_type(types, path);
                        lemma_budget_insert(types, visited, t, types.len() as int);
                        let q2 = pop_advance(path);
                        assert(stack_reachable(types, q2, root)) by {
                            assert forall|p2: int| 0 <= p2 < q2.len() && p2 % 3 == 0 implies
                                reaches(types, root, seg_type(#[trigger] q2[p2])) by {
                                assert(q2[p2] == path[p2]);
                            }
                        }
                        lemma_emitted_types_reachable(types, q2, visited.insert(t), root);
                        lemma_reach_cons(x, walk_items(types, q2, visited.insert(t)), types, root);
                    }
                }
            }
            Segment::Declaration(i) => {
                let tv = types[seg_type(path[p - 1]) as int];
                if i >= tv.decls.len() {
                    lemma_pop_decl(types, path);
                    let q2 = path.drop_last();
                    assert(stack_reachable(types, q2, root)) by {
                        assert forall|p2: int| 0 <= p2 < q2.len() && p2 % 3 == 0 implies reaches(
                            types,
                            root,
                            seg_type(#[trigger] q2[p2]),
                        ) by {
                            assert(q2[p2] == path[p2]);
                        }
                    }
                    lemma_emitted_types_reachable(types, q2, visited, root);
                } else {
                    let x = (ItemView::Declaration(tv.decls[i as int]), p as int);
                    if tv.decls[i as int].deps.len() > 0 {
                        lemma_push_dep(types, path);
                        let q2 = path.push(Segment::Dependency(0));
                        assert(stack_reachable(types, q2, root)) by {
                            assert forall|p2: int| 0 <= p2 < q2.len() && p2 % 3 == 0 implies
                                reaches(types, root, seg_type(#[trigger] q2[p2])) by {
                                assert(q2[p2] == path[p2]);
                            }
                        }
                        lemma_emitted_types_reachable(types, q2, visited, root);
                        lemma_reach_cons(x, walk_items(types, q2, visited), types, root);
                    } else if i + 1 < tv.decls.len() {
                        lemma_next_decl(types, path);
                        let q2 = path.update(p as int, Segment::Declaration((i + 1) as usize));
                        assert(stack_reachable(types, q2, root)) by {
                            assert forall|p2: int| 0 <= p2 < q2.len() && p2 % 3 == 0 implies
                                reaches(types, root, seg_type(#[trigger] q2[p2])) by {
                                assert(q2[p2] == path[p2]);
                            }
                        }
                        lemma_emitted_types_reachable(types, q2, visited, root);
                        lemma_reach_cons(x, walk_items(types, q2, visited), types, root);
                    } else {
                        lemma_pop_decl(types, path);
                        let q2 = path.drop_last();
                        assert(stack_reachable(types, q2, root)) by {
                            assert forall|p2: int| 0 <= p2 < q2.len() && p2 % 3 == 0 implies
                                reaches(types, root, seg_type(#[trigger] q2[p2])) by {
                                assert(q2[p2] == path[p2]);
                            }
                        }
                        lemma_emitted_types_reachable(types, q2, visited, root);
                        lemma_reach_cons(x, walk_items(types, q2, visited), types, root);
                    }
                }
            }
            Segment::Dependency(j) => {
                let k = seg_idx(path[p - 1]);
                let t = seg_type(path[p - 2]);
                let dv = types[t as int].decls[k as int];
                if j >= dv.deps.len() {
                    lemma_finish_decl(types, path);
                    let q2 = path.drop_last().drop_last().push(
                        Segment::Declaration((k + 1) as usize),
                    );
                    assert(stack_reachable(types, q2, root)) by {
                        assert forall|p2: int| 0 <= p2 < q2.len() && p2 % 3 == 0 implies reaches(
                            types,
                            root,
                            seg_type(#[trigger] q2[p2]),
                        ) by {
                            assert(q2[p2] == path[p2]);
                        }
                    }
                    lemma_emitted_types_reachable(types, q2, visited, root);
                } else {
                    let target = dv.deps[j as int].0;
                    let x = (
                        ItemView::Dependency(target, types[target as int].name, dv.deps[j as int].1),
                        p as int,
                    );
                    if !visited.contains(target) {
                        assert(stack_pos_wf(types, path, p - 1));
                        assert(stack_pos_wf(types, path, p - 2));
                        assert(types[t as int].decls[k as int].deps[j as int].0 < types.len());
                        assert(has_edge(types, t, target)) by {
                            assert(types[t as int].decls[k as int].deps[j as int].0 == target);
                        }
                        assert(reaches(types, root, t));
                        lemma_reaches_step(types, root, t, target);
                        lemma_push_type(types, path, target);
                        let q2 = path.push(Segment::Type(target));
                        assert(stack_reachable(types, q2, root)) by {
                            assert forall|p2: int| 0 <= p2 < q2.len() && p2 % 3 == 0 implies
                                reaches(types, root, seg_type(#[trigger] q2[p2])) by {
                                if p2 < path.len() {
                                    assert(q2[p2] == path[p2]);
                                } else {
                                    assert(q2[p2] == Segment::Type(target));
                                }
                            }
                        }
                        lemma_emitted_types_reachable(types, q2, visited, root);
                        lemma_reach_cons(x, walk_items(types, q2, visited), types, root);
                    } else {
                        lemma_next_dep(types, path);
                        let q2 = path.update(p as int, Segment::Dependency((j + 1) as usize));
                        assert(stack_reachable(types, q2, root)) by {
                            assert forall|p2: int| 0 <= p2 < q2.len() && p2 % 3 == 0 implies
                                reaches(types, root, seg_type(#[trigger] q2[p2])) by {
                                assert(q2[p2] == path[p2]);
                            }
                        }
                        lemma_emitted_types_reachable(types, q2, visited, root);
                        lemma_reach_cons(x, walk_items(types, q2, visited), types, root);
                    }
                }
            }
        }
    }
}

/// A fresh walk emits at least one item, and the first one is the root's
/// type item at depth zero.
pub proof fn lemma_walk_starts_at_root(types: Seq<TypeView>, root: usize)
    requires
        types_bounded(types),
        root < types.len(),
    ensures
        ({
            let w = walk_items(types, seq![Segment::Type(root)], Set::empty());
            &&& w.len() > 0
            &&& w[0] == (
                ItemView::Type(root, types[root as int].name, origin_of(types[root as int])),
                0int,
            )
        }),
{
    let path = seq![Segment::Type(root)];
    assert(stack_wf(types, path)) by {
        assert forall|p: int| 0 <= p < path.len() implies stack_pos_wf(types, path, p) by {
            assert(p == 0);
        }
    }
    let w = walk_items(types, path, Set::empty());
    assert(path[0] == Segment::Type(root));
    assert(!Set::<usize>::empty().contains(root));
}

/// A type item that is not the first item of a walk is announced by the
/// dependency item directly before it: same target, one level up.  This is
/// the expansion step of the traversal, and on a back edge (target already
/// entered) no such type item follows at all.
pub open spec fn expansions_follow_edges(w: Seq<(ItemView, int)>) -> bool {
    forall|a: int| 1 <= a < w.len() && (#[trigger] w[a]).0 is Type ==> {
        &&& w[a - 1].0 is Dependency
        &&& dep_item_target(w[a - 1].0) == type_item_id(w[a].0)
        &&& w[a - 1].1 == w[a].1 - 1
    }
}

proof fn lemma_expansion_cons(x: (ItemView, int), w2: Seq<(ItemView, int)>)
    requires
        expansions_follow_edges(w2),
        w2.len() > 0 && w2[0].0 is Type ==> x.0 is Dependency && dep_item_target(x.0)
            == type_item_id(w2[0].0) && x.1 == w2[0].1 - 1,
    ensures
        expansions_follow_edges(seq![x] + w2),
{
    let w = seq![x] + w2;
    assert forall|a: int| 1 <= a < w.len() && (#[trigger] w[a]).0 is Type implies {
        &&& w[a - 1].0 is Dependency
        &&& dep_item_target(w[a - 1].0) == type_item_id(w[a].0)
        &&& w[a - 1].1 == w[a].1 - 1
    } by {
        assert(w[a] == w2[a - 1]);
        if a == 1 {
            assert(w[0] == x);
        } else {
            assert(w[a - 1] == w2[a - 2]);
        }
    }
}

/// Whenever a walk expands a type, the type item appears immediately after
/// the dependency item that reached it, one level deeper.
#[verifier::rlimit(100)]
#[verifier::spinoff_prover]
pub proof fn lemma_dependency_expansion(types: Seq<TypeView>, path: Seq<Segment>, visited: Set<usize>)
    requires
        stack_wf(types, path),
        types_bounded(types),
        deps_targets_wf(types),
        inner_types_visited(path, visited),
    ensures
        expansions_follow_edges(walk_items(types, path, visited)),
    decreases walk_measure(types, path, visited),
{
    let w = walk_items(types, path, visited);
    if path.len() == 0 {
    } else {
        let p = path.len() - 1;
        assert(stack_pos_wf(types, path, p as int));
        match path[p] {
            Segment::Type(t) => {
                if visited.contains(t) {
                    lemma_pop_type(types, path);
                    let q2 = pop_advance(path);
                    lemma_inner_prefix(path, q2, visited);
                    lemma_dependency_expansion(types, q2, visited);
                } else {
                    let tv = types[t as int];
                    let x = (ItemView::Type(t, tv.name, origin_of(tv)), p as int);
                    let vis2 = visited.insert(t);
                    if tv.decls.len() > 0 {
                        lemma_push_decl(types, path);
                        lemma_budget_insert(types, visited, t, types.len() as int);
                        let q2 = path.push(Segment::Declaration(0));
                        assert(inner_types_visited(q2, vis2)) by {
                            assert forall|p2: int| 0 <= p2 < q2.len() - 1 && p2 % 3 == 0 implies
                                vis2.contains(seg_type(#[trigger] q2[p2])) by {
                                if p2 < path.len() - 1 {
                                    assert(q2[p2] == path[p2]);
                                    assert(visited.contains(seg_type(path[p2])));
                                } else {
                                    assert(q2[p2] == path[p - 0]);
                                    assert(seg_type(q2[p2]) == t);
                                }
                            }
                        }
                        lemma_dependency_expansion(types, q2, vis2);
                        lemma_head_type_item(types, q2, vis2);
                        let w2 = walk_items(types, q2, vis2);
                        assert(w2.len() > 0 && w2[0].0 is Type ==> false) by {
                            if w2.len() > 0 && w2[0].0 is Type {
                                assert(q2.last() == Segment::Declaration(0));
                            }
                        }
                        lemma_expansion_cons(x, w2);
                    } else {
                        lemma_pop_type(types, path);
                        lemma_budget_insert(types, visited, t, types.len() as int);
                        let q2 = pop_advance(path);
                        assert(inner_types_visited(path, vis2)) by {
                            assert forall|p2: int| 0 <= p2 < path.len() - 1 && p2 % 3 == 0 implies
                                vis2.contains(seg_type(#[trigger] path[p2])) by {
                                assert(visited.contains(seg_type(path[p2])));
                            }
                        }
                        lemma_inner_prefix(path, q2, vis2);
                        lemma_dependency_expansion(types, q2, vis2);
                        lemma_head_type_item(types, q2, vis2);
                        let w2 = walk_items(types, q2, vis2);
                        assert(w2.len() > 0 && w2[0].0 is Type ==> false) by {
                            if w2.len() > 0 && w2[0].0 is Type {
                                assert(q2.len() > 0);
                                assert(q2.last() == Segment::Type(type_item_id(w2[0].0)));
                                assert((p as int) % 3 == 0);
                                assert(stack_pos_wf(types, q2, q2.len() - 1));
                                assert(false);
                            }
                        }
                        lemma_expansion_cons(x, w2);
                    }
                }
            }
            Segment::Declaration(i) => {
                let tv = types[seg_type(path[p - 1]) as int];
                if i >= tv.decls.len() {
                    lemma_pop_decl(types, path);
                    let q2 = path.drop_last();
                    lemma_inner_prefix(path, q2, visited);
                    lemma_dependency_expansion(types, q2, visited);
                } else {
                    let x = (ItemView::Declaration(tv.decls[i as int]), p as int);
                    if tv.decls[i as int].deps.len() > 0 {
                        lemma_push_dep(types, path);
                        let q2 = path.push(Segment::Dependency(0));
                        lemma_inner_grow(path, q2, visited);
                        lemma_dependency_expansion(types, q2, visited);
                        lemma_head_type_item(types, q2, visited);
                        let w2 = walk_items(types, q2, visited);
                        assert(w2.len() > 0 && w2[0].0 is Type ==> false) by {
                            if w2.len() > 0 && w2[0].0 is Type {
                                assert(q2.last() == Segment::Dependency(0));
                            }
                        }
                        lemma_expansion_cons(x, w2);
                    } else if i + 1 < tv.decls.len() {
                        lemma_next_decl(types, path);
                        let q2 = path.update(p as int, Segment::Declaration((i + 1) as usize));
                        lemma_inner_update_top(path, q2, visited);
                        lemma_dependency_expansion(types, q2, visited);
                        lemma_head_type_item(types, q2, visited);
                        let w2 = walk_items(types, q2, visited);
                        assert(w2.len() > 0 && w2[0].0 is Type ==> false) by {
                            if w2.len() > 0 && w2[0].0 is Type {
                                assert(q2.last() == Segment::Declaration((i + 1) as usize));
                            }
                        }
                        lemma_expansion_cons(x, w2);
                    } else {
                        lemma_pop_decl(types, path);
                        let q2 = path.drop_last();
                        lemma_inner_prefix(path, q2, visited);
                        lemma_dependency_expansion(types, q2, visited);
                        lemma_head_type_item(types, q2, visited);
                        let w2 = walk_items(types, q2, visited);
                        assert(w2.len() > 0 && w2[0].0 is Type ==> false) by {
                            if w2.len() > 0 && w2[0].0 is Type {
                                assert(q2.last() == path[p - 1]);
                                assert((p - 1) % 3 == 0);
                                assert(visited.contains(seg_type(path[p - 1])));
                                assert(false);
                            }
                        }
                        lemma_expansion_cons(x, w2);
                    }
                }
            }
            Segment::Dependency(j) => {
                let k = seg_idx(path[p - 1]);
                let t = seg_type(path[p - 2]);
                let dv = types[t as int].decls[k as int];
                if j >= dv.deps.len() {
                    lemma_finish_decl(types, path);
                    let q2 = path.drop_last().drop_last().push(
                        Segment::Declaration((k + 1) as usize),
                    );
                    lemma_inner_prefix(path, q2, visited);
                    lemma_dependency_expansion(types, q2, visited);
                } else {
                    let target = dv.deps[j as int].0;
                    let x = (
                        ItemView::Dependency(target, types[target as int].name, dv.deps[j as int].1),
                        p as int,
                    );
                    if !visited.contains(target) {
                        assert(stack_pos_wf(types, path, p - 1));
                        assert(stack_pos_wf(types, path, p - 2));
                        assert(types[t as int].decls[k as int].deps[j as int].0 < types.len());
                        lemma_push_type(types, path, target);
                        let q2 = path.push(Segment::Type(target));
                        lemma_inner_grow(path, q2, visited);
                        lemma_dependency_expansion(types, q2, visited);
                        lemma_head_type_item(types, q2, visited);
                        let w2 = walk_items(types, q2, visited);
                        assert(w2.len() > 0 && w2[0].0 is Type ==> x.0 is Dependency
                            && dep_item_target(x.0) == type_item_id(w2[0].0) && x.1 == w2[0].1
                            - 1) by {
                            if w2.len() > 0 && w2[0].0 is Type {
                                assert(q2.last() == Segment::Type(target));
                                assert(q2.last() == Segment::Type(type_item_id(w2[0].0)));
                                assert(type_item_id(w2[0].0) == target);
                                assert(w2[0].1 == q2.len() - 1);
                            }
                        }
                        lemma_expansion_cons(x, w2);
                    } else {
                        lemma_next_dep(types, path);
                        let q2 = path.update(p as int, Segment::Dependency((j + 1) as usize));
                        lemma_inner_update_top(path, q2, visited);
                        lemma_dependency_expansion(types, q2, visited);
                        lemma_head_type_item(types, q2, visited);
                        let w2 = walk_items(types, q2, visited);
                        assert(w2.len() > 0 && w2[0].0 is Type ==> false) by {
                            if w2.len() > 0 && w2[0].0 is Type {
                                assert(q2.last() == Segment::Dependency((j + 1) as usize));
                            }
                        }
                        lemma_expansion_cons(x, w2);
                    }
                }
            }
        }
    }
}

/// Some type item of `w` carries the id `u`.
pub open spec fn emitted_type(w: Seq<(ItemView, int)>, u: usize) -> bool {
    exists|a: int| 0 <= a < w.len() && (#[trigger] w[a]).0 is Type && type_item_id(w[a].0) == u
}

proof fn lemma_emitted_cons(x: (ItemView, int), w2: Seq<(ItemView, int)>)
    ensures
        forall|u: usize| #[trigger] emitted_type(seq![x] + w2, u) <==> ((x.0 is Type
            && type_item_id(x.0) == u) || emitted_type(w2, u)),
{
    let w = seq![x] + w2;
    assert forall|u: usize| #[trigger] emitted_type(w, u) implies ((x.0 is Type && type_item_id(
        x.0,
    ) == u) || emitted_type(w2, u)) by {
        let a = choose|a: int| 0 <= a < w.len() && (#[trigger] w[a]).0 is Type && type_item_id(
            w[a].0,
        ) == u;
        if a > 0 {
            assert(w[a] == w2[a - 1]);
            assert(0 <= a - 1 < w2.len() && w2[a - 1].0 is Type && type_item_id(w2[a - 1].0) == u);
        } else {
            assert(w[0] == x);
        }
    }
    assert forall|u: usize| ((x.0 is Type && type_item_id(x.0) == u) || emitted_type(
        w2,
        u,
    )) implies #[trigger] emitted_type(w, u) by {
        if x.0 is Type && type_item_id(x.0) == u {
            assert(w[0] == x);
            assert(0 <= 0 < w.len() && w[0].0 is Type && type_item_id(w[0].0) == u);
        } else {
            let a = choose|a: int|
                0 <= a < w2.len() && (#[trigger] w2[a]).0 is Type && type_item_id(w2[a].0) == u;
            assert(w[a + 1] == w2[a]);
            assert(0 <= a + 1 < w.len() && w[a + 1].0 is Type && type_item_id(w[a + 1].0) == u);
        }
    }
}

/// The type `u` is either already entered or will still be reported by the
/// walk from this state.
pub open spec fn in_walk(
    types: Seq<TypeView>,
    path: Seq<Segment>,
    visited: Set<usize>,
    u: usize,
) -> bool {
    visited.contains(u) || emitted_type(walk_items(types, path, visited), u)
}

/// The dependency edge `k` of declaration `j` of type `t` has not been
/// scanned yet: some covered type segment for `t` still has its scan
/// position at or before that edge.
pub open spec fn edge_pending(path: Seq<Segment>, t: usize, j: int, k: int) -> bool {
    exists|p: int|
        #![trigger path[p]]
        0 <= p < path.len() - 1 && path[p] == Segment::Type(t) && (j > seg_idx(path[p + 1]) || (j
            == seg_idx(path[p + 1]) && (p + 2 >= path.len() || k >= seg_idx(path[p + 2]))))
}

/// Every dependency edge of every entered type either leads to an entered
/// type already or is still waiting on the stack.  The walk maintains this
/// from the first step to the last; with an empty stack it says the entered
/// set is closed under dependency edges.
pub open spec fn scan_invariant(
    types: Seq<TypeView>,
    path: Seq<Segment>,
    visited: Set<usize>,
) -> bool {
    forall|t: usize, j: int, k: int|
        visited.contains(t) && t < types.len() && 0 <= j < types[t as int].decls.len() && 0 <= k
            < types[t as int].decls[j].deps.len() ==> visited.contains(
            (#[trigger] types[t as int].decls[j].deps[k]).0,
        ) || edge_pending(path, t, j, k)
}

/// Entering the type on top of the stack and descending into its
/// declarations keeps every edge of every entered type accounted for: the
/// fresh type's edges are all pending through its new declaration segment.
proof fn lemma_scan_enter_push(types: Seq<TypeView>, path: Seq<Segment>, visited: Set<usize>)
    requires
        stack_wf(types, path),
        types_bounded(types),
        path.len() > 0,
        path.last() is Type,
        scan_invariant(types, path, visited),
    ensures
        scan_invariant(
            types,
            path.push(Segment::Declaration(0)),
            visited.insert(seg_type(path.last())),
        ),
{
    let n = path.len() as int;
    let t0 = seg_type(path[n - 1]);
    let q2 = path.push(Segment::Declaration(0));
    let vis2 = visited.insert(t0);
    assert(stack_pos_wf(types, path, n - 1));
    assert((n - 1) % 3 == 0);
    assert forall|t: usize, j: int, k: int|
        vis2.contains(t) && t < types.len() && 0 <= j < types[t as int].decls.len() && 0 <= k
            < types[t as int].decls[j].deps.len() implies vis2.contains(
        (#[trigger] types[t as int].decls[j].deps[k]).0,
    ) || edge_pending(q2, t, j, k) by {
        if t == t0 {
            assert(q2[n - 1] == path[n - 1]);
            assert(q2[n] == Segment::Declaration(0));
            assert(0 <= n - 1 < q2.len() - 1 && q2[n - 1] == Segment::Type(t) && (j > seg_idx(
                q2[n],
            ) || (j == seg_idx(q2[n]) && (n + 1 >= q2.len() || k >= seg_idx(q2[n + 1])))));
        } else {
            assert(visited.contains(t));
            if !visited.contains(types[t as int].decls[j].deps[k].0) {
                assert(edge_pending(path, t, j, k));
                let p = choose|p: int|
                    #![trigger path[p]]
                    0 <= p < path.len() - 1 && path[p] == Segment::Type(t) && (j > seg_idx(
                        path[p + 1],
                    ) || (j == seg_idx(path[p + 1]) && (p + 2 >= path.len() || k >= seg_idx(
                        path[p + 2],
                    ))));
                if p == n - 2 || p == n - 3 {
                    assert(stack_pos_wf(types, path, p));
                    assert(false);
                }
                assert(p <= n - 4);
                assert(q2[p] == path[p]);
                assert(q2[p + 1] == path[p + 1]);
                assert(q2[p + 2] == path[p + 2]);
                assert(0 <= p < q2.len() - 1 && q2[p] == Segment::Type(t) && (j > seg_idx(
                    q2[p + 1],
                ) || (j == seg_idx(q2[p + 1]) && (p + 2 >= q2.len() || k >= seg_idx(q2[p + 2])))));
            }
        }
    }
}

/// Popping the type segment on top (a finished leaf or a pruned back edge)
/// keeps every edge accounted for: the dependency segment underneath
/// advances exactly past the edge whose target that type was.
proof fn lemma_scan_pop_type(
    types: Seq<TypeView>,
    path: Seq<Segment>,
    visited: Set<usize>,
    vis2: Set<usize>,
)
    requires
        stack_wf(types, path),
        types_bounded(types),
        path.len() > 0,
        path.last() is Type,
        scan_invariant(types, path, visited),
        forall|u: usize| #[trigger] visited.contains(u) ==> vis2.contains(u),
        vis2.contains(seg_type(path.last())),
        forall|u: usize| #[trigger] vis2.contains(u) && !visited.contains(u) ==> u == seg_type(
            path.last(),
        ) && types[u as int].decls.len() == 0,
    ensures
        scan_invariant(types, pop_advance(path), vis2),
{
    let n = path.len() as int;
    let t0 = seg_type(path[n - 1]);
    let q2 = pop_advance(path);
    assert(stack_pos_wf(types, path, n - 1));
    assert((n - 1) % 3 == 0);
    assert forall|t: usize, j: int, k: int|
        vis2.contains(t) && t < types.len() && 0 <= j < types[t as int].decls.len() && 0 <= k
            < types[t as int].decls[j].deps.len() implies vis2.contains(
        (#[trigger] types[t as int].decls[j].deps[k]).0,
    ) || edge_pending(q2, t, j, k) by {
        if !vis2.contains(types[t as int].decls[j].deps[k].0) {
            assert(visited.contains(t));
            assert(!visited.contains(types[t as int].decls[j].deps[k].0));
            assert(edge_pending(path, t, j, k));
            let p = choose|p: int|
                #![trigger path[p]]
                0 <= p < path.len() - 1 && path[p] == Segment::Type(t) && (j > seg_idx(
                    path[p + 1],
                ) || (j == seg_idx(path[p + 1]) && (p + 2 >= path.len() || k >= seg_idx(
                    path[p + 2],
                ))));
            assert(n >= 4) by {
                assert(0 <= p < n - 1);
            }
            assert((n - 2) % 3 == 2);
            assert(stack_pos_wf(types, path, n - 2));
            let jj = seg_idx(path[n - 2]);
            if p == n - 2 || p == n - 3 {
                assert(stack_pos_wf(types, path, p));
                assert(false);
            }
            assert(q2 == path.drop_last().update(n - 2, Segment::Dependency((jj + 1) as usize)));
            assert(stack_pos_wf(types, path, n - 3));
            assert(stack_pos_wf(types, path, n - 4));
            assert(seg_type(path[n - 4]) < types.len());
            assert(seg_idx(path[n - 3]) < types[seg_type(path[n - 4]) as int].decls.len());
            assert(jj < types[seg_type(path[n - 4]) as int].decls[seg_idx(path[n - 3]) as int].deps.len());
            assert(types[seg_type(path[n - 4]) as int].decls.len() <= usize::MAX);
            assert(types[seg_type(path[n - 4]) as int].decls[seg_idx(path[n - 3]) as int].deps.len()
                <= usize::MAX);
            if p == n - 4 {
                assert(t == seg_type(path[n - 4]));
                let i = seg_idx(path[n - 3]);
                assert(q2[p] == path[p]);
                assert(q2[p + 1] == path[p + 1]);
                assert(q2[p + 2] == Segment::Dependency((jj + 1) as usize));
                if j > i {
                    assert(0 <= p < q2.len() - 1 && q2[p] == Segment::Type(t) && j > seg_idx(
                        q2[p + 1],
                    ));
                } else {
                    assert(j == i);
                    assert(k >= jj);
                    if k >= jj + 1 {
                        assert(0 <= p < q2.len() - 1 && q2[p] == Segment::Type(t) && (j == seg_idx(
                            q2[p + 1],
                        ) && (p + 2 >= q2.len() || k >= seg_idx(q2[p + 2]))));
                    } else {
                        assert(k == jj);
                        assert(types[t as int].decls[i as int].deps[jj as int].0 == seg_type(
                            path[n - 1],
                        ));
                        assert(vis2.contains(types[t as int].decls[j].deps[k].0));
                        assert(false);
                    }
                }
            } else {
                assert(p <= n - 5);
                assert(q2[p] == path[p]);
                assert(q2[p + 1] == path[p + 1]);
                assert(q2[p + 2] == path[p + 2]);
                assert(0 <= p < q2.len() - 1 && q2[p] == Segment::Type(t) && (j > seg_idx(
                    q2[p + 1],
                ) || (j == seg_idx(q2[p + 1]) && (p + 2 >= q2.len() || k >= seg_idx(q2[p + 2])))));
            }
        }
    }
}

/// Advancing past the declaration segment on top (descending into its
/// dependencies, moving to the next sibling, or backtracking) keeps every
/// edge accounted for.
proof fn lemma_scan_decl_step(types: Seq<TypeView>, path: Seq<Segment>, visited: Set<usize>)
    requires
        stack_wf(types, path),
        types_bounded(types),
        path.len() > 0,
        path.last() is Declaration,
        scan_invariant(types, path, visited),
    ensures
        ({
            let n = path.len() as int;
            let tv = types[seg_type(path[n - 2]) as int];
            let i = seg_idx(path[n - 1]);
            let q2 = if i < tv.decls.len() && tv.decls[i as int].deps.len() > 0 {
                path.push(Segment::Dependency(0))
            } else if i < tv.decls.len() && tv.decls[i as int].deps.len() == 0 && i + 1
                < tv.decls.len() {
                path.update(n - 1, Segment::Declaration((i + 1) as usize))
            } else {
                path.drop_last()
            };
            scan_invariant(types, q2, visited)
        }),
{
    let n = path.len() as int;
    assert(stack_pos_wf(types, path, n - 1));
    assert((n - 1) % 3 == 1);
    assert(n >= 2);
    assert(stack_pos_wf(types, path, n - 2));
    let t0 = seg_type(path[n - 2]);
    let tv = types[t0 as int];
    let i = seg_idx(path[n - 1]);
    assert(tv.decls.len() <= usize::MAX);
    let q2 = if i < tv.decls.len() && tv.decls[i as int].deps.len() > 0 {
        path.push(Segment::Dependency(0))
    } else if i < tv.decls.len() && tv.decls[i as int].deps.len() == 0 && i + 1 < tv.decls.len() {
        path.update(n - 1, Segment::Declaration((i + 1) as usize))
    } else {
        path.drop_last()
    };
    assert forall|t: usize, j: int, k: int|
        visited.contains(t) && t < types.len() && 0 <= j < types[t as int].decls.len() && 0 <= k
            < types[t as int].decls[j].deps.len() implies visited.contains(
        (#[trigger] types[t as int].decls[j].deps[k]).0,
    ) || edge_pending(q2, t, j, k) by {
        if !visited.contains(types[t as int].decls[j].deps[k].0) {
            assert(edge_pending(path, t, j, k));
            let p = choose|p: int|
                #![trigger path[p]]
                0 <= p < path.len() - 1 && path[p] == Segment::Type(t) && (j > seg_idx(
                    path[p + 1],
                ) || (j == seg_idx(path[p + 1]) && (p + 2 >= path.len() || k >= seg_idx(
                    path[p + 2],
                ))));
            if p == n - 3 || p == n - 4 {
                assert(stack_pos_wf(types, path, p));
                assert(false);
            }
            if p == n - 2 {
                assert(t == t0);
                assert(j > i || j == i);
                if i < tv.decls.len() && tv.decls[i as int].deps.len() > 0 {
                    assert(q2[p] == path[p]);
                    assert(q2[p + 1] == path[p + 1]);
                    assert(q2[p + 2] == Segment::Dependency(0));
                    assert(0 <= p < q2.len() - 1 && q2[p] == Segment::Type(t) && (j > seg_idx(
                        q2[p + 1],
                    ) || (j == seg_idx(q2[p + 1]) && (p + 2 >= q2.len() || k >= seg_idx(
                        q2[p + 2],
                    )))));
                } else if i < tv.decls.len() && tv.decls[i as int].deps.len() == 0 && i + 1
                    < tv.decls.len() {
                    assert(j != i) by {
                        if j == i {
                            assert(types[t as int].decls[j].deps.len() == 0);
                        }
                    }
                    assert(j > i);
                    assert(q2[p] == path[p]);
                    assert(q2[p + 1] == Segment::Declaration((i + 1) as usize));
                    assert(0 <= p < q2.len() - 1 && q2[p] == Segment::Type(t) && (j > seg_idx(
                        q2[p + 1],
                    ) || (j == seg_idx(q2[p + 1]) && (p + 2 >= q2.len() || k >= seg_idx(
                        q2[p + 2],
                    )))));
                } else {
                    if i >= tv.decls.len() {
                        assert(j < tv.decls.len() <= i);
                        assert(false);
                    } else {
                        assert(tv.decls[i as int].deps.len() == 0 && i + 1 >= tv.decls.len());
                        if j == i {
                            assert(types[t as int].decls[j].deps.len() == 0);
                            assert(false);
                        } else {
                            assert(j > i);
                            assert(j >= tv.decls.len());
                            assert(false);
                        }
                    }
                }
            } else {
                assert(p <= n - 5);
                assert(q2[p] == path[p]);
                assert(q2[p + 1] == path[p + 1]);
                assert(q2[p + 2] == path[p + 2]);
                assert(0 <= p < q2.len() - 1 && q2[p] == Segment::Type(t) && (j > seg_idx(
                    q2[p + 1],
                ) || (j == seg_idx(q2[p + 1]) && (p + 2 >= q2.len() || k >= seg_idx(q2[p + 2])))));
            }
        }
    }
}

/// Advancing past the dependency segment on top (expanding its target,
/// skipping an already entered target, or backtracking out of an exhausted
/// edge list) keeps every edge accounted for.
proof fn lemma_scan_dep_step(types: Seq<TypeView>, path: Seq<Segment>, visited: Set<usize>)
    requires
        stack_wf(types, path),
        types_bounded(types),
        path.len() > 0,
        path.last() is Dependency,
        scan_invariant(types, path, visited),
    ensures
        ({
            let n = path.len() as int;
            let kk = seg_idx(path[n - 2]);
            let dv = types[seg_type(path[n - 3]) as int].decls[kk as int];
            let j0 = seg_idx(path[n - 1]);
            let q2 = if j0 >= dv.deps.len() {
                path.drop_last().drop_last().push(Segment::Declaration((kk + 1) as usize))
            } else if !visited.contains(dv.deps[j0 as int].0) {
                path.push(Segment::Type(dv.deps[j0 as int].0))
            } else {
                path.update(n - 1, Segment::Dependency((j0 + 1) as usize))
            };
            scan_invariant(types, q2, visited)
        }),
{
    let n = path.len() as int;
    assert(stack_pos_wf(types, path, n - 1));
    assert((n - 1) % 3 == 2);
    assert(n >= 3);
    assert(stack_pos_wf(types, path, n - 2));
    assert(stack_pos_wf(types, path, n - 3));
    let kk = seg_idx(path[n - 2]);
    let t0 = seg_type(path[n - 3]);
    let dv = types[t0 as int].decls[kk as int];
    let j0 = seg_idx(path[n - 1]);
    assert(types[t0 as int].decls.len() <= usize::MAX);
    assert(dv.deps.len() <= usize::MAX);
    let q2 = if j0 >= dv.deps.len() {
        path.drop_last().drop_last().push(Segment::Declaration((kk + 1) as usize))
    } else if !visited.contains(dv.deps[j0 as int].0) {
        path.push(Segment::Type(dv.deps[j0 as int].0))
    } else {
        path.update(n - 1, Segment::Dependency((j0 + 1) as usize))
    };
    assert forall|t: usize, j: int, k: int|
        visited.contains(t) && t < types.len() && 0 <= j < types[t as int].decls.len() && 0 <= k
            < types[t as int].decls[j].deps.len() implies visited.contains(
        (#[trigger] types[t as int].decls[j].deps[k]).0,
    ) || edge_pending(q2, t, j, k) by {
        if !visited.contains(types[t as int].decls[j].deps[k].0) {
            assert(edge_pending(path, t, j, k));
            let p = choose|p: int|
                #![trigger path[p]]
                0 <= p < path.len() - 1 && path[p] == Segment::Type(t) && (j > seg_idx(
                    path[p + 1],
                ) || (j == seg_idx(path[p + 1]) && (p + 2 >= path.len() || k >= seg_idx(
                    path[p + 2],
                ))));
            if p == n - 2 || p == n - 4 || p == n - 5 {
                assert(stack_pos_wf(types, path, p));
                assert(false);
            }
            if p == n - 3 {
                assert(t == t0);
                assert(j > kk || (j == kk && k >= j0));
                if j0 >= dv.deps.len() {
                    // Backtracking: the edge list at kk is exhausted.
                    assert(j != kk || k < dv.deps.len());
                    if j == kk {
                        assert(k >= j0 && k < dv.deps.len() && j0 >= dv.deps.len());
                        assert(false);
                    }
                    assert(j > kk);
                    assert(q2[p] == path[p]);
                    assert(q2[p + 1] == Segment::Declaration((kk + 1) as usize));
                    assert(q2.len() == n - 1);
                    assert(0 <= p < q2.len() - 1 && q2[p] == Segment::Type(t) && (j > seg_idx(
                        q2[p + 1],
                    ) || (j == seg_idx(q2[p + 1]) && (p + 2 >= q2.len() || k >= seg_idx(
                        q2[p + 2],
                    )))));
                } else if !visited.contains(dv.deps[j0 as int].0) {
                    // Expanding the target: scan positions are unchanged.
                    assert(q2[p] == path[p]);
                    assert(q2[p + 1] == path[p + 1]);
                    assert(q2[p + 2] == path[p + 2]);
                    assert(0 <= p < q2.len() - 1 && q2[p] == Segment::Type(t) && (j > seg_idx(
                        q2[p + 1],
                    ) || (j == seg_idx(q2[p + 1]) && (p + 2 >= q2.len() || k >= seg_idx(
                        q2[p + 2],
                    )))));
                } else {
                    // Skipping an entered target: only that one edge is
                    // newly scanned, and its target is entered.
                    assert(q2[p] == path[p]);
                    assert(q2[p + 1] == path[p + 1]);
                    assert(q2[p + 2] == Segment::Dependency((j0 + 1) as usize));
                    if j > kk {
                        assert(0 <= p < q2.len() - 1 && q2[p] == Segment::Type(t) && j > seg_idx(
                            q2[p + 1],
                        ));
                    } else {
                        assert(j == kk && k >= j0);
                        if k >= j0 + 1 {
                            assert(0 <= p < q2.len() - 1 && q2[p] == Segment::Type(t) && (j
                                == seg_idx(q2[p + 1]) && (p + 2 >= q2.len() || k >= seg_idx(
                                q2[p + 2],
                            ))));
                        } else {
                            assert(k == j0);
                            assert(types[t as int].decls[j].deps[k].0 == dv.deps[j0 as int].0);
                            assert(false);
                        }
                    }
                }
            } else {
                assert(p <= n - 6);
                assert(q2[p] == path[p]);
                assert(q2[p + 1] == path[p + 1]);
                assert(q2[p + 2] == path[p + 2]);
                assert(0 <= p < q2.len() - 1 && q2[p] == Segment::Type(t) && (j > seg_idx(
                    q2[p + 1],
                ) || (j == seg_idx(q2[p + 1]) && (p + 2 >= q2.len() || k >= seg_idx(q2[p + 2])))));
            }
        }
    }
}

/// What the walk will have covered is closed under dependency edges: if a
/// type is entered or will be reported, so is everything its declarations
/// reference.  This is the completeness half of coverage; together with
/// [`lemma_type_items_once`] the walk reports each such type exactly once.
#[verifier::rlimit(100)]
#[verifier::spinoff_prover]
pub proof fn lemma_walk_closure(types: Seq<TypeView>, path: Seq<Segment>, visited: Set<usize>)
    requires
        stack_wf(types, path),
        types_bounded(types),
        deps_targets_wf(types),
        inner_types_visited(path, visited),
        scan_invariant(types, path, visited),
    ensures
        forall|t: usize, u: usize|
            #![trigger has_edge(types, t, u), in_walk(types, path, visited, t)]
            in_walk(types, path, visited, t) && t < types.len() && has_edge(types, t, u)
                ==> in_walk(types, path, visited, u),
    decreases walk_measure(types, path, visited),
{
    let n = path.len() as int;
    if n == 0 {
        assert forall|t: usize, u: usize|
            in_walk(types, path, visited, t) && t < types.len() && has_edge(
                types,
                t,
                u,
            ) implies in_walk(types, path, visited, u) by {
            assert(visited.contains(t));
            let (j, k) = choose|j: int, k: int|
                0 <= j < types[t as int].decls.len() && 0 <= k < types[t as int].decls[j].deps.len()
                    && (#[trigger] types[t as int].decls[j].deps[k]).0 == u;
            assert(visited.contains(types[t as int].decls[j].deps[k].0) || edge_pending(
                path,
                t,
                j,
                k,
            ));
            if edge_pending(path, t, j, k) {
                let p = choose|p: int|
                    #![trigger path[p]]
                    0 <= p < path.len() - 1 && path[p] == Segment::Type(t) && (j > seg_idx(
                        path[p + 1],
                    ) || (j == seg_idx(path[p + 1]) && (p + 2 >= path.len() || k >= seg_idx(
                        path[p + 2],
                    ))));
                assert(false);
            }
        }
    } else {
        let p = n - 1;
        assert(stack_pos_wf(types, path, p as int));
        match path[p] {
            Segment::Type(t0) => {
                if visited.contains(t0) {
                    lemma_pop_type(types, path);
                    let q2 = pop_advance(path);
                    lemma_inner_prefix(path, q2, visited);
                    lemma_scan_pop_type(types, path, visited, visited);
                    lemma_walk_closure(types, q2, visited);
                    assert(walk_items(types, path, visited) == walk_items(types, q2, visited));
                    assert forall|t: usize, u: usize|
                        in_walk(types, path, visited, t) && t < types.len() && has_edge(
                            types,
                            t,
                            u,
                        ) implies in_walk(types, path, visited, u) by {
                        assert(in_walk(types, q2, visited, t));
                        assert(in_walk(types, q2, visited, u));
                    }
                } else {
                    let tv = types[t0 as int];
                    let x = (ItemView::Type(t0, tv.name, origin_of(tv)), p as int);
                    let vis2 = visited.insert(t0);
                    if tv.decls.len() > 0 {
                        lemma_push_decl(types, path);
                        lemma_budget_insert(types, visited, t0, types.len() as int);
                        let q2 = path.push(Segment::Declaration(0));
                        assert(inner_types_visited(q2, vis2)) by {
                            assert forall|p2: int| 0 <= p2 < q2.len() - 1 && p2 % 3 == 0 implies
                                vis2.contains(seg_type(#[trigger] q2[p2])) by {
                                if p2 < path.len() - 1 {
                                    assert(q2[p2] == path[p2]);
                                    assert(visited.contains(seg_type(path[p2])));
                                } else {
                                    assert(q2[p2] == path[p]);
                                }
                            }
                        }
                        lemma_scan_enter_push(types, path, visited);
                        lemma_walk_closure(types, q2, vis2);
                        lemma_emitted_cons(x, walk_items(types, q2, vis2));
                        assert forall|u: usize| #[trigger] in_walk(types, path, visited, u)
                            == in_walk(types, q2, vis2, u) by {
                            assert(emitted_type(seq![x] + walk_items(types, q2, vis2), u) <==> ((
                            x.0 is Type && type_item_id(x.0) == u) || emitted_type(
                                walk_items(types, q2, vis2),
                                u,
                            )));
                        }
                        assert forall|t: usize, u: usize|
                            in_walk(types, path, visited, t) && t < types.len() && has_edge(
                                types,
                                t,
                                u,
                            ) implies in_walk(types, path, visited, u) by {
                            assert(in_walk(types, q2, vis2, t));
                            assert(in_walk(types, q2, vis2, u));
                        }
                    } else {
                        lemma_pop_type(types, path);
                        lemma_budget_insert(types, visited, t0, types.len() as int);
                        let q2 = pop_advance(path);
                        assert(inner_types_visited(path, vis2)) by {
                            assert forall|p2: int| 0 <= p2 < path.len() - 1 && p2 % 3 == 0 implies
                                vis2.contains(seg_type(#[trigger] path[p2])) by {
                                assert(visited.contains(seg_type(path[p2])));
                            }
                        }
                        lemma_inner_prefix(path, q2, vis2);
                        lemma_scan_pop_type(types, path, visited, vis2);
                        lemma_walk_closure(types, q2, vis2);
                        lemma_emitted_cons(x, walk_items(types, q2, vis2));
                        assert forall|u: usize| #[trigger] in_walk(types, path, visited, u)
                            == in_walk(types, q2, vis2, u) by {
                            assert(emitted_type(seq![x] + walk_items(types, q2, vis2), u) <==> ((
                            x.0 is Type && type_item_id(x.0) == u) || emitted_type(
                                walk_items(types, q2, vis2),
                                u,
                            )));
                        }
                        assert forall|t: usize, u: usize|
                            in_walk(types, path, visited, t) && t < types.len() && has_edge(
                                types,
                                t,
                                u,
                            ) implies in_walk(types, path, visited, u) by {
                            assert(in_walk(types, q2, vis2, t));
                            assert(in_walk(types, q2, vis2, u));
                        }
                    }
                }
            }
            Segment::Declaration(i) => {
                let tv = types[seg_type(path[p - 1]) as int];
                if i >= tv.decls.len() {
                    lemma_pop_decl(types, path);
                    let q2 = path.drop_last();
                    lemma_inner_prefix(path, q2, visited);
                    lemma_scan_decl_step(types, path, visited);
                    lemma_walk_closure(types, q2, visited);
                    assert(walk_items(types, path, visited) == walk_items(types, q2, visited));
                    assert forall|t: usize, u: usize|
                        in_walk(types, path, visited, t) && t < types.len() && has_edge(
                            types,
                            t,
                            u,
                        ) implies in_walk(types, path, visited, u) by {
                        assert(in_walk(types, q2, visited, t));
                        assert(in_walk(types, q2, visited, u));
                    }
                } else {
                    let x = (ItemView::Declaration(tv.decls[i as int]), p as int);
                    let q2 = if tv.decls[i as int].deps.len() > 0 {
                        path.push(Segment::Dependency(0))
                    } else if i + 1 < tv.decls.len() {
                        path.update(p as int, Segment::Declaration((i + 1) as usize))
                    } else {
                        path.drop_last()
                    };
                    if tv.decls[i as int].deps.len() > 0 {
                        lemma_push_dep(types, path);
                        lemma_inner_grow(path, q2, visited);
                    } else if i + 1 < tv.decls.len() {
                        lemma_next_decl(types, path);
                        lemma_inner_update_top(path, q2, visited);
                    } else {
                        lemma_pop_decl(types, path);
                        lemma_inner_prefix(path, q2, visited);
                    }
                    lemma_scan_decl_step(types, path, visited);
                    lemma_walk_closure(types, q2, visited);
                    lemma_emitted_cons(x, walk_items(types, q2, visited));
                    assert forall|u: usize| #[trigger] in_walk(types, path, visited, u)
                        == in_walk(types, q2, visited, u) by {
                        assert(emitted_type(seq![x] + walk_items(types, q2, visited), u) <==> ((
                        x.0 is Type && type_item_id(x.0) == u) || emitted_type(
                            walk_items(types, q2, visited),
                            u,
                        )));
                    }
                    assert forall|t: usize, u: usize|
                        in_walk(types, path, visited, t) && t < types.len() && has_edge(
                            types,
                            t,
                            u,
                        ) implies in_walk(types, path, visited, u) by {
                        assert(in_walk(types, q2, visited, t));
                        assert(in_walk(types, q2, visited, u));
                    }
                }
            }
            Segment::Dependency(j0) => {
                let kk = seg_idx(path[p - 1]);
                let t0 = seg_type(path[p - 2]);
                let dv = types[t0 as int].decls[kk as int];
                if j0 >= dv.deps.len() {
                    lemma_finish_decl(types, path);
                    let q2 = path.drop_last().drop_last().push(
                        Segment::Declaration((kk + 1) as usize),
                    );
                    lemma_inner_prefix(path, q2, visited);
                    lemma_scan_dep_step(types, path, visited);
                    lemma_walk_closure(types, q2, visited);
                    assert(walk_items(types, path, visited) == walk_items(types, q2, visited));
                    assert forall|t: usize, u: usize|
                        in_walk(types, path, visited, t) && t < types.len() && has_edge(
                            types,
                            t,
                            u,
                        ) implies in_walk(types, path, visited, u) by {
                        assert(in_walk(types, q2, visited, t));
                        assert(in_walk(types, q2, visited, u));
                    }
                } else {
                    let target = dv.deps[j0 as int].0;
                    let x = (
                        ItemView::Dependency(target, types[target as int].name, dv.deps[j0 as int].1),
                        p as int,
                    );
                    let q2 = if !visited.contains(target) {
                        path.push(Segment::Type(target))
                    } else {
                        path.update(p as int, Segment::Dependency((j0 + 1) as usize))
                    };
                    if !visited.contains(target) {
                        assert(stack_pos_wf(types, path, p - 1));
                        assert(stack_pos_wf(types, path, p - 2));
                        assert(types[t0 as int].decls[kk as int].deps[j0 as int].0 < types.len());
                        lemma_push_type(types, path, target);
                        lemma_inner_grow(path, q2, visited);
                    } else {
                        lemma_next_dep(types, path);
                        lemma_inner_update_top(path, q2, visited);
                    }
                    lemma_scan_dep_step(types, path, visited);
                    lemma_walk_closure(types, q2, visited);
                    lemma_emitted_cons(x, walk_items(types, q2, visited));
                    assert forall|u: usize| #[trigger] in_walk(types, path, visited, u)
                        == in_walk(types, q2, visited, u) by {
                        assert(emitted_type(seq![x] + walk_items(types, q2, visited), u) <==> ((
                        x.0 is Type && type_item_id(x.0) == u) || emitted_type(
                            walk_items(types, q2, visited),
                            u,
                        )));
                    }
                    assert forall|t: usize, u: usize|
                        in_walk(types, path, visited, t) && t < types.len() && has_edge(
                            types,
                            t,
                            u,
                        ) implies in_walk(types, path, visited, u) by {
                        assert(in_walk(types, q2, visited, t));
                        assert(in_walk(types, q2, visited, u));
                    }
                }
            }
        }
    }
}

proof fn lemma_linked_in_walk(
    types: Seq<TypeView>,
    path: Seq<Segment>,
    visited: Set<usize>,
    q: Seq<usize>,
)
    requires
        deps_targets_wf(types),
        forall|t: usize, u: usize|
            #![trigger has_edge(types, t, u), in_walk(types, path, visited, t)]
            in_walk(types, path, visited, t) && t < types.len() && has_edge(types, t, u)
                ==> in_walk(types, path, visited, u),
        q.len() >= 1,
        linked(types, q),
        q.first() < types.len(),
        in_walk(types, path, visited, q.first()),
    ensures
        in_walk(types, path, visited, q.last()),
        q.last() < types.len(),
    decreases q.len(),
{
    if q.len() > 1 {
        assert(has_edge(types, q[0], q[1]));
        let (j, k) = choose|j: int, k: int|
            0 <= j < types[q[0] as int].decls.len() && 0 <= k
                < types[q[0] as int].decls[j].deps.len() && (
            #[trigger] types[q[0] as int].decls[j].deps[k]).0 == q[1];
        assert(q[1] < types.len());
        assert(in_walk(types, path, visited, q[1]));
        let q1 = q.drop_first();
        assert(linked(types, q1)) by {
            assert forall|x: int| 0 <= x < q1.len() - 1 implies has_edge(
                types,
                #[trigger] q1[x],
                q1[x + 1],
            ) by {
                assert(q1[x] == q[x + 1]);
                assert(q1[x + 1] == q[x + 2]);
                assert(has_edge(types, q[x + 1], q[x + 2]));
            }
        }
        lemma_linked_in_walk(types, path, visited, q1);
        assert(q1.last() == q.last());
    }
}

/// Completeness of the walk: starting fresh from `root`, every type that
/// `root` transitively depends on is reported by a type item.  Together
/// with [`lemma_type_items_once`] and [`lemma_emitted_types_reachable`],
/// the walk emits exactly one type item per type reachable from the root.
pub proof fn lemma_walk_covers_reachable(types: Seq<TypeView>, root: usize)
    requires
        types_bounded(types),
        deps_targets_wf(types),
        root < types.len(),
    ensures
        forall|u: usize| #[trigger] reaches(types, root, u) ==> emitted_type(
            walk_items(types, seq![Segment::Type(root)], Set::empty()),
            u,
        ),
{
    let path = seq![Segment::Type(root)];
    let visited = Set::<usize>::empty();
    assert(stack_wf(types, path)) by {
        assert forall|p: int| 0 <= p < path.len() implies stack_pos_wf(types, path, p) by {
            assert(p == 0);
        }
    }
    lemma_walk_closure(types, path, visited);
    lemma_walk_starts_at_root(types, root);
    let w = walk_items(types, path, visited);
    assert(emitted_type(w, root)) by {
        assert(0 <= 0 < w.len() && w[0].0 is Type && type_item_id(w[0].0) == root);
    }
    assert forall|u: usize| #[trigger] reaches(types, root, u) implies emitted_type(w, u) by {
        let q = choose|q: Seq<usize>|
            #![trigger linked(types, q)]
            q.len() >= 1 && q.first() == root && q.last() == u && linked(types, q);
        lemma_linked_in_walk(types, path, visited, q);
        assert(in_walk(types, path, visited, u));
    }
}

/// The laws above, stated of a live cursor over a well-formed index: the
/// items it will still produce never report the same type twice, carry
/// depths that follow the traversal rhythm, expand a type only right after
/// the dependency item that reached it, and, on a cursor rooted at `root`,
/// only mention types the root transitively depends on.
pub proof fn lemma_cursor_types_once(index: &Index, c: IndexCursor)
    requires
        index@.wf(),
        c.wf(*index),
    ensures
        type_items_fresh(c.remaining(*index), visited_set(c.visited@)),
{
    index.lemma_types_bounded();
    lemma_wf_deps_targets(index@);
    lemma_type_items_once(index@.types, c.path@, visited_set(c.visited@));
}

/// See [`lemma_cursor_types_once`].
pub proof fn lemma_cursor_depths(index: &Index, c: IndexCursor)
    requires
        index@.wf(),
        c.wf(*index),
    ensures
        depths_classified(c.remaining(*index)),
{
    index.lemma_types_bounded();
    lemma_wf_deps_targets(index@);
    lemma_item_depths(index@.types, c.path@, visited_set(c.visited@));
}

/// See [`lemma_cursor_types_once`].
pub proof fn lemma_cursor_expansion(index: &Index, c: IndexCursor)
    requires
        index@.wf(),
        c.wf(*index),
    ensures
        expansions_follow_edges(c.remaining(*index)),
{
    index.lemma_types_bounded();
    lemma_wf_deps_targets(index@);
    lemma_dependency_expansion(index@.types, c.path@, visited_set(c.visited@));
}

/// See [`lemma_cursor_types_once`]; this is the completeness half of
/// coverage: a fresh cursor rooted at `root` reports every type the root
/// transitively depends on.
pub proof fn lemma_cursor_covers_reachable(index: &Index, c: IndexCursor, root: usize)
    requires
        index@.wf(),
        c.wf(*index),
        c.path@ == seq![Segment::Type(root)],
        visited_set(c.visited@) == Set::<usize>::empty(),
        root < index@.types.len(),
    ensures
        forall|u: usize| #[trigger] reaches(index@.types, root, u) ==> emitted_type(
            c.remaining(*index),
            u,
        ),
{
    index.lemma_types_bounded();
    lemma_wf_deps_targets(index@);
    lemma_walk_covers_reachable(index@.types, root);
}

/// See [`lemma_cursor_types_once`]; this is the soundness half of coverage:
/// a fresh cursor rooted at `root` only reports reachable types.
pub proof fn lemma_cursor_reachable(index: &Index, c: IndexCursor, root: usize)
    requires
        index@.wf(),
        c.wf(*index),
        c.path@ == seq![Segment::Type(root)],
    ensures
        forall|a: int|
            0 <= a < c.remaining(*index).len() && (#[trigger] c.remaining(*index)[a]).0 is Type
                ==> reaches(index@.types, root, type_item_id(c.remaining(*index)[a].0)),
{
    index.lemma_types_bounded();
    lemma_wf_deps_targets(index@);
    assert(stack_reachable(index@.types, c.path@, root)) by {
        lemma_reaches_self(index@.types, root);
        assert forall|p: int| 0 <= p < c.path@.len() && p % 3 == 0 implies reaches(
            index@.types,
            root,
            seg_type(#[trigger] c.path@[p]),
        ) by {
            assert(p == 0);
            assert(c.path@[0] == Segment::Type(root));
        }
    }
    lemma_emitted_types_reachable(index@.types, c.path@, visited_set(c.visited@), root);
}

} // verus!
