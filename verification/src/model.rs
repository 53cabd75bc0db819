use vstd::prelude::*;

verus! {

broadcast use vstd::std_specs::vec::group_vec_axioms, vstd::seq::group_seq_axioms;

/// A scalar or array value held by a property.
///
/// Floating-point values are carried as their IEEE-754 binary32 bit
/// pattern, so that both decoders and all contracts can speak of them as
/// plain 32-bit words.
#[derive(Debug, PartialEq)]
pub enum CfgValue {
    Long(i32),
    Float(u32),
    String(String),
    Array(Vec<CfgValue>),
}

/// A named value.
#[derive(Debug, PartialEq)]
pub struct CfgProperty {
    pub name: String,
    pub value: CfgValue,
}

/// A named, optionally-parented container of nested entries.
#[derive(Debug, PartialEq)]
pub struct CfgClass {
    pub name: String,
    pub parent: Option<String>,
    pub entries: Vec<CfgEntry>,
}

/// One of the four things that can appear in a document or class body.
#[derive(Debug, PartialEq)]
pub enum CfgEntry {
    Property(CfgProperty),
    Class(CfgClass),
    Extern(String),
    Delete(String),
}

/// What a path lookup hands back: either a whole entry or a bare value.
#[derive(Debug, PartialEq)]
pub enum EntryReturn {
    Entry(CfgEntry),
    Value(CfgValue),
}

/// Mathematical model of a `CfgValue`.
#[verifier::ext_equal]
pub enum ValueModel {
    Long(i32),
    Float(u32),
    String(Seq<char>),
    Array(Seq<ValueModel>),
}

/// Mathematical model of a `CfgEntry`: a property is a name and a value; a
/// class is a name, an optional parent name and a body; an extern or delete
/// is a bare name.
#[verifier::ext_equal]
pub enum EntryModel {
    Property(Seq<char>, ValueModel),
    Class(Seq<char>, Option<Seq<char>>, Seq<EntryModel>),
    Extern(Seq<char>),
    Delete(Seq<char>),
}

/// Mathematical model of an `EntryReturn`.
#[verifier::ext_equal]
pub enum EntryReturnModel {
    Entry(EntryModel),
    Value(ValueModel),
}

impl CfgValue {
    pub open spec fn model(self) -> ValueModel
        decreases self,
    {
        match self {
            CfgValue::Long(n) => ValueModel::Long(n),
            CfgValue::Float(b) => ValueModel::Float(b),
            CfgValue::String(s) => ValueModel::String(s@),
            CfgValue::Array(a) => ValueModel::Array(
                Seq::new(a@.len(), |i: int| if 0 <= i < a@.len() {
                    a@[i].model()
                } else {
                    ValueModel::Long(0)
                }),
            ),
        }
    }
}

impl CfgEntry {
    pub open spec fn model(self) -> EntryModel
        decreases self,
    {
        match self {
            CfgEntry::Property(p) => EntryModel::Property(p.name@, p.value.model()),
            CfgEntry::Class(c) => EntryModel::Class(
                c.name@,
                match c.parent {
                    Some(p) => Some(p@),
                    None => None,
                },
                Seq::new(c.entries@.len(), |i: int| if 0 <= i < c.entries@.len() {
                    c.entries@[i].model()
                } else {
                    EntryModel::Extern(Seq::empty())
                }),
            ),
            CfgEntry::Extern(n) => EntryModel::Extern(n@),
            CfgEntry::Delete(n) => EntryModel::Delete(n@),
        }
    }
}

pub open spec fn values_model(vs: Seq<CfgValue>) -> Seq<ValueModel> {
    Seq::new(vs.len(), |i: int| if 0 <= i < vs.len() {
        vs[i].model()
    } else {
        ValueModel::Long(0)
    })
}

pub open spec fn entries_model(es: Seq<CfgEntry>) -> Seq<EntryModel> {
    Seq::new(es.len(), |i: int| if 0 <= i < es.len() {
        es[i].model()
    } else {
        EntryModel::Extern(Seq::empty())
    })
}

impl EntryReturn {
    pub open spec fn model(self) -> EntryReturnModel {
        match self {
            EntryReturn::Entry(e) => EntryReturnModel::Entry(e.model()),
            EntryReturn::Value(v) => EntryReturnModel::Value(v.model()),
        }
    }
}

/// What a lookup of the path suffix `path[k..]` in `entries[i..]` yields,
/// scanning entries in declaration order.
///
/// The first entry whose name equals the head of the path decides the
/// outcome: a class matched by the final path segment is returned whole; a
/// class matched earlier is descended into; a property matched by the final
/// segment yields its value. A name match of the wrong shape for the rest of
/// the path ends the lookup with no result rather than continuing the scan.
pub open spec fn lookup_at(entries: Seq<EntryModel>, i: int, path: Seq<Seq<char>>, k: int) -> Option<EntryReturnModel>
    decreases entries, entries.len() - i,
{
    if !(0 <= k < path.len()) || !(0 <= i) || i >= entries.len() {
        None
    } else {
        match entries[i] {
            EntryModel::Class(name, parent, body) => {
                if name == path[k] {
                    if k == path.len() - 1 {
                        Some(EntryReturnModel::Entry(entries[i]))
                    } else {
                        lookup_at(body, 0, path, k + 1)
                    }
                } else {
                    lookup_at(entries, i + 1, path, k)
                }
            },
            EntryModel::Property(name, value) => {
                if name == path[k] {
                    if k == path.len() - 1 {
                        Some(EntryReturnModel::Value(value))
                    } else {
                        None
                    }
                } else {
                    lookup_at(entries, i + 1, path, k)
                }
            },
            _ => lookup_at(entries, i + 1, path, k),
        }
    }
}

/// The view of a path of borrowed name segments.
pub open spec fn path_model(path: Seq<&str>) -> Seq<Seq<char>> {
    Seq::new(path.len(), |i: int| path[i]@)
}

/// Copies every value of `a`, preserving structure.
fn dup_values(a: &Vec<CfgValue>) -> (out: Vec<CfgValue>)
    ensures
        out@.len() == a@.len(),
        forall|t: int| 0 <= t < a@.len() ==> out@[t].model() == a@[t].model(),
    decreases a,
{
    let mut out: Vec<CfgValue> = Vec::new();
    let mut j: usize = 0;
    while j < a.len()
        invariant
            j <= a@.len(),
            out@.len() == j,
            forall|t: int| 0 <= t < j ==> out@[t].model() == a@[t].model(),
        decreases a@.len() - j,
    {
        let e: CfgValue = match &a[j] {
            CfgValue::Long(n) => CfgValue::Long(*n),
            CfgValue::Float(b) => CfgValue::Float(*b),
            CfgValue::String(s) => CfgValue::String(s.clone()),
            CfgValue::Array(inner) => {
                let d = dup_values(inner);
                proof {
                    assert(CfgValue::Array(d).model() is Array);
                    assert(a@[j as int].model() is Array);
                    assert(CfgValue::Array(d).model()->Array_0 =~= a@[j as int].model()->Array_0);
                    assert(CfgValue::Array(d).model() =~~= a@[j as int].model());
                }
                CfgValue::Array(d)
            },
        };
        proof {
            assert(e.model() == a@[j as int].model());
        }
        out.push(e);
        j += 1;
    }
    out
}

/// Copies every entry of `es`, preserving structure.
fn dup_entries(es: &Vec<CfgEntry>) -> (out: Vec<CfgEntry>)
    ensures
        out@.len() == es@.len(),
        forall|t: int| 0 <= t < es@.len() ==> out@[t].model() == es@[t].model(),
    decreases es,
{
    let mut out: Vec<CfgEntry> = Vec::new();
    let mut j: usize = 0;
    while j < es.len()
        invariant
            j <= es@.len(),
            out@.len() == j,
            forall|t: int| 0 <= t < j ==> out@[t].model() == es@[t].model(),
        decreases es@.len() - j,
    {
        let e: CfgEntry = match &es[j] {
            CfgEntry::Property(p) => {
                let v: CfgValue = match &p.value {
                    CfgValue::Long(n) => CfgValue::Long(*n),
                    CfgValue::Float(b) => CfgValue::Float(*b),
                    CfgValue::String(s) => CfgValue::String(s.clone()),
                    CfgValue::Array(inner) => {
                        let d = dup_values(inner);
                        proof {
                            assert(CfgValue::Array(d).model() is Array);
                            assert(p.value.model() is Array);
                            assert(CfgValue::Array(d).model()->Array_0 =~= p.value.model()->Array_0);
                            assert(CfgValue::Array(d).model() =~~= p.value.model());
                        }
                        CfgValue::Array(d)
                    },
                };
                proof {
                    assert(v.model() == p.value.model());
                }
                CfgEntry::Property(CfgProperty { name: p.name.clone(), value: v })
            },
            CfgEntry::Class(c) => {
                let parent: Option<String> = match &c.parent {
                    Some(pn) => Some(pn.clone()),
                    None => None,
                };
                let body = dup_entries(&c.entries);
                let d = CfgEntry::Class(CfgClass { name: c.name.clone(), parent, entries: body });
                proof {
                    assert(d.model() is Class);
                    assert(es@[j as int].model() is Class);
                    assert(d.model()->Class_2 =~= es@[j as int].model()->Class_2);
                    assert(d.model() =~~= es@[j as int].model());
                }
                d
            },
            CfgEntry::Extern(n) => CfgEntry::Extern(n.clone()),
            CfgEntry::Delete(n) => CfgEntry::Delete(n.clone()),
        };
        proof {
            assert(e.model() == es@[j as int].model());
        }
        out.push(e);
        j += 1;
    }
    out
}

impl CfgValue {
    /// Structure-preserving copy.
    pub fn duplicate(&self) -> (r: CfgValue)
        ensures
            r.model() == self.model(),
    {
        match self {
            CfgValue::Long(n) => CfgValue::Long(*n),
            CfgValue::Float(b) => CfgValue::Float(*b),
            CfgValue::String(s) => CfgValue::String(s.clone()),
            CfgValue::Array(a) => {
                let d = dup_values(a);
                proof {
                    assert(CfgValue::Array(d).model() is Array);
                    assert(self.model() is Array);
                    assert(CfgValue::Array(d).model()->Array_0 =~= self.model()->Array_0);
                    assert(CfgValue::Array(d).model() =~~= self.model());
                }
                CfgValue::Array(d)
            },
        }
    }
}

impl CfgEntry {
    /// Structure-preserving copy.
    pub fn duplicate(&self) -> (r: CfgEntry)
        ensures
            r.model() == self.model(),
    {
        match self {
            CfgEntry::Property(p) => CfgEntry::Property(CfgProperty {
                name: p.name.clone(),
                value: p.value.duplicate(),
            }),
            CfgEntry::Class(c) => {
                let parent: Option<String> = match &c.parent {
                    Some(pn) => Some(pn.clone()),
                    None => None,
                };
                let body = dup_entries(&c.entries);
                let d = CfgEntry::Class(CfgClass { name: c.name.clone(), parent, entries: body });
                proof {
                    assert(d.model() is Class);
                    assert(self.model() is Class);
                    assert(d.model()->Class_2 =~= self.model()->Class_2);
                    assert(d.model() =~~= self.model());
                }
                d
            },
            CfgEntry::Extern(n) => CfgEntry::Extern(n.clone()),
            CfgEntry::Delete(n) => CfgEntry::Delete(n.clone()),
        }
    }
}

} // verus!
