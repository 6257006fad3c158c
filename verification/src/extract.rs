//! Declaration records as the extraction stage hands them over, and the
//! single-threaded consumer that feeds them into the [`Index`].
//!
//! The language-specific extraction itself (parsing one file's text into
//! these records) is an external collaborator; this module only defines the
//! records and indexes them.

use crate::Point;
use crate::index::{
    Index, IndexView, Kind, add_decl_spec, refs_view,
};
use vstd::prelude::*;

verus! {

/// What one site defines, as extracted from source text.
#[derive(Debug, Clone)]
pub enum Definition {
    /// A class-like definition; classes, structs and enums all capture with
    /// the keyword that introduced them.
    Class { kind: String, name: String },
    Protocol { name: String },
    Extension { name: String },
}

/// A located reference to a type name inside a declaration's body.
#[derive(Debug, Clone)]
pub struct Reference {
    pub name: String,
    pub location: Point,
}

/// One extracted declaration: what it defines, where it stands, and the
/// references it makes, in source order.
#[derive(Debug, Clone)]
pub struct Declaration {
    pub definition: Definition,
    pub location: Point,
    pub references: Vec<Reference>,
}

/// Mathematical value of a [`Definition`].
#[verifier::ext_equal]
pub ghost enum DefinitionView {
    Class { kind: Seq<char>, name: Seq<char> },
    Protocol { name: Seq<char> },
    Extension { name: Seq<char> },
}

/// Mathematical value of an extracted [`Declaration`].
#[verifier::ext_equal]
pub ghost struct RecordView {
    pub definition: DefinitionView,
    pub location: Point,
    pub references: Seq<(Seq<char>, Point)>,
}

pub open spec fn definition_view(d: Definition) -> DefinitionView {
    match d {
        Definition::Class { kind, name } => DefinitionView::Class { kind: kind@, name: name@ },
        Definition::Protocol { name } => DefinitionView::Protocol { name: name@ },
        Definition::Extension { name } => DefinitionView::Extension { name: name@ },
    }
}

pub open spec fn record_view(r: Declaration) -> RecordView {
    RecordView {
        definition: definition_view(r.definition),
        location: r.location,
        references: r.references@.map_values(|f: Reference| (f.name@, f.location)),
    }
}

/// The name and index kind a definition declares.  A class-like definition
/// with an unrecognised keyword declares nothing.
pub open spec fn def_kind_spec(d: DefinitionView) -> Option<(Seq<char>, Kind)> {
    match d {
        DefinitionView::Class { kind, name } => {
            if kind == "class"@ {
                Some((name, Kind::Class))
            } else if kind == "struct"@ {
                Some((name, Kind::Struct))
            } else if kind == "enum"@ {
                Some((name, Kind::Enum))
            } else {
                None
            }
        }
        DefinitionView::Protocol { name } => Some((name, Kind::Protocol)),
        DefinitionView::Extension { name } => Some((name, Kind::Extension)),
    }
}

/// The name and index kind a definition declares, or `None` for an
/// unrecognised class-like keyword.
pub fn definition_kind(d: &Definition) -> (r: Option<(String, Kind)>)
    ensures
        match r {
            Some(p) => def_kind_spec(definition_view(*d)) == Some((p.0@, p.1)),
            None => def_kind_spec(definition_view(*d)) is None,
        },
{
    match d {
        Definition::Class { kind, name } => {
            if *kind == "class".to_owned() {
                Some((name.clone(), Kind::Class))
            } else if *kind == "struct".to_owned() {
                Some((name.clone(), Kind::Struct))
            } else if *kind == "enum".to_owned() {
                Some((name.clone(), Kind::Enum))
            } else {
                None
            }
        }
        Definition::Protocol { name } => Some((name.clone(), Kind::Protocol)),
        Definition::Extension { name } => Some((name.clone(), Kind::Extension)),
    }
}

/// Effect of indexing one file's extracted declarations, in order: each
/// record that declares something is added to the index; the rest are
/// skipped.
pub open spec fn ingest_spec(iv: IndexView, file: Seq<char>, records: Seq<RecordView>) -> IndexView
    decreases records.len(),
{
    if records.len() == 0 {
        iv
    } else {
        let r = records.first();
        let iv1 = match def_kind_spec(r.definition) {
            Some(nk) => add_decl_spec(iv, nk.0, nk.1, file, r.location, r.references).0,
            None => iv,
        };
        ingest_spec(iv1, file, records.drop_first())
    }
}

/// Index every declaration extracted from one file, in extraction order.
/// Returns how many records were indexed; the others declared nothing.
#[verifier::loop_isolation(false)]
pub fn ingest(index: &mut Index, file: &str, records: &Vec<Declaration>) -> (count: usize)
    requires
        old(index)@.wf(),
    ensures
        final(index)@ == ingest_spec(
            old(index)@,
            file@,
            records@.map_values(|r: Declaration| record_view(r)),
        ),
        final(index)@.wf(),
        count <= records@.len(),
{
    let ghost iv0 = index@;
    let ghost rv = records@.map_values(|r: Declaration| record_view(r));
    let mut count: usize = 0;
    proof {
        assert(rv.skip(0) =~= rv);
    }
    let mut i: usize = 0;
    while i < records.len()
        invariant
            index@.wf(),
            i <= records@.len(),
            count <= i,
            ingest_spec(iv0, file@, rv) == ingest_spec(index@, file@, rv.skip(i as int)),
        decreases records@.len() - i,
    {
        let ghost pre = index@;
        let record = &records[i];
        match definition_kind(&record.definition) {
            Some(name_kind) => {
                let mut refs: Vec<(String, Point)> = Vec::new();
                proof {
                    assert(refs_view(refs@) =~= rv[i as int].references.take(0));
                }
                let mut k: usize = 0;
                while k < record.references.len()
                    invariant
                        k <= record.references@.len(),
                        refs@.len() == k,
                        refs_view(refs@) == rv[i as int].references.take(k as int),
                    decreases record.references@.len() - k,
                {
                    let reference = &record.references[k];
                    refs.push((reference.name.clone(), reference.location));
                    proof {
                        assert(refs_view(refs@) =~= rv[i as int].references.take(k + 1));
                    }
                    k += 1;
                }
                proof {
                    assert(rv[i as int].references.take(record.references@.len() as int)
                        =~= rv[i as int].references);
                }
                index.add_declaration(name_kind.0.as_str(), name_kind.1, file, record.location, &refs);
                count += 1;
            }
            None => {
            }
        }
        proof {
            assert(rv.skip(i as int).first() == rv[i as int]);
            assert(rv.skip(i as int).drop_first() =~= rv.skip(i + 1));
        }
        i += 1;
    }
    proof {
        assert(rv.skip(records@.len() as int) =~= Seq::<RecordView>::empty());
    }
    count
}

} // verus!
