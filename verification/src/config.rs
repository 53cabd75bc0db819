use vstd::prelude::*;

use crate::binary::{check_header, decode_document, decode_document_spec, header_ok};
use crate::diag::CfgError;
use crate::model::{
    lookup_at, entries_model, path_model, CfgEntry, EntryReturn, EntryReturnModel, EntryModel,
};
use crate::parser::{parse_text, parse_text_x};
use crate::textutil::{bytes_to_chars, str_to_chars, utf8_decode};
use vstd::prelude::Seq;

verus! {

/// A decoded configuration document: binary-only header metadata plus the
/// ordered top-level entries shared by both encodings.
#[derive(Debug, PartialEq)]
pub struct Cfg {
    pub enum_offset: u32,
    pub inherited_classname: String,
    pub entries: Vec<CfgEntry>,
}

/// Mathematical model of a `Cfg`.
pub struct CfgModel {
    pub enum_offset: u32,
    pub inherited_classname: Seq<char>,
    pub entries: Seq<EntryModel>,
}

impl Cfg {
    pub open spec fn model(self) -> CfgModel {
        CfgModel {
            enum_offset: self.enum_offset,
            inherited_classname: self.inherited_classname@,
            entries: entries_model(self.entries@),
        }
    }

    /// Looks up a nested class or property value by a path of names.
    pub fn get_entry(&self, path: &[&str]) -> (r: Option<EntryReturn>)
        ensures
            match r {
                Some(found) => lookup_at(self.model().entries, 0, path_model(path@), 0)
                    == Some(found.model()),
                None => lookup_at(self.model().entries, 0, path_model(path@), 0) is None,
            },
    {
        lookup_entries(&self.entries, 0, path, 0)
    }
}

/// String/segment comparison by contents.
fn eq_str(a: &String, b: &str) -> (r: bool)
    ensures
        r == (a@ == b@),
{
    let owned = b.to_owned();
    *a == owned
}

/// Recursive worker for `Cfg::get_entry`, scanning `entries[i..]` against
/// the path suffix `path[k..]`.
fn lookup_entries(entries: &Vec<CfgEntry>, i: usize, path: &[&str], k: usize) -> (r: Option<EntryReturn>)
    requires
        i <= entries@.len(),
        k <= path@.len(),
    ensures
        match r {
            Some(found) => lookup_at(entries_model(entries@), i as int, path_model(path@), k as int)
                == Some(found.model()),
            None => lookup_at(entries_model(entries@), i as int, path_model(path@), k as int) is None,
        },
    decreases entries, entries@.len() - i,
{
    if k >= path.len() || i >= entries.len() {
        return None;
    }
    let seg: &str = path[k];
    assert(entries_model(entries@)[i as int] == entries@[i as int].model());
    match &entries[i] {
        CfgEntry::Class(c) => {
            if eq_str(&c.name, seg) {
                if k == path.len() - 1 {
                    Some(EntryReturn::Entry(entries[i].duplicate()))
                } else {
                    proof {
                        assert(entries@[i as int].model() is Class);
                        assert(entries_model(c.entries@)
                            =~= entries@[i as int].model()->Class_2);
                    }
                    lookup_entries(&c.entries, 0, path, k + 1)
                }
            } else {
                lookup_entries(entries, i + 1, path, k)
            }
        },
        CfgEntry::Property(p) => {
            if eq_str(&p.name, seg) {
                if k == path.len() - 1 {
                    Some(EntryReturn::Value(p.value.duplicate()))
                } else {
                    None
                }
            } else {
                lookup_entries(entries, i + 1, path, k)
            }
        },
        _ => lookup_entries(entries, i + 1, path, k),
    }
}


impl Cfg {
    /// Whether the bytes begin with the fixed binary header words.
    pub fn is_valid_rap_bin(data: &[u8]) -> (r: bool)
        ensures
            r == header_ok(data@),
    {
        check_header(data)
    }

    /// Decodes a binary document. A header mismatch is `InvalidFormat`; a
    /// body that cannot be read whole is `TruncatedOrCorrupt`; no text
    /// fallback is attempted.
    pub fn read_config(data: &[u8]) -> (r: Result<Cfg, CfgError>)
        ensures
            match r {
                Ok(cfg) => header_ok(data@) && decode_document_spec(data@) == Some(
                    (cfg.enum_offset, cfg.inherited_classname@, cfg.model().entries),
                ),
                Err(e) => {
                    &&& (e is InvalidFormat <==> !header_ok(data@))
                    &&& (e is TruncatedOrCorrupt <==> header_ok(data@) && decode_document_spec(
                        data@,
                    ) is None)
                    &&& (e is InvalidFormat || e is TruncatedOrCorrupt)
                },
            },
    {
        if !check_header(data) {
            return Err(CfgError::InvalidFormat);
        }
        match decode_document(data) {
            Some((off, inh, es)) => Ok(
                Cfg { enum_offset: off, inherited_classname: inh, entries: es },
            ),
            None => Err(CfgError::TruncatedOrCorrupt),
        }
    }

    /// Parses textual input. Any lexer or parser diagnostic makes the whole
    /// call a `ParseError` carrying every diagnostic collected.
    pub fn parse_config(cfg_text: &str) -> (r: Result<Cfg, CfgError>)
        ensures
            match r {
                Ok(c) => parse_text(cfg_text@) == Ok::<_, Seq<crate::diag::Diag>>(
                    c.model().entries,
                ) && c.enum_offset == 0 && c.inherited_classname@.len() == 0,
                Err(e) => e is ParseError && parse_text(cfg_text@) == Err::<
                    Seq<EntryModel>,
                    _,
                >(e->ParseError_0@),
            },
    {
        let cs = str_to_chars(cfg_text);
        match parse_text_x(&cs) {
            Ok(es) => Ok(Cfg { enum_offset: 0, inherited_classname: String::new(), entries: es }),
            Err(ds) => Err(CfgError::ParseError(ds)),
        }
    }

    /// Decodes either encoding: bytes carrying the binary header are read
    /// as a binary document, anything else is read as text, and bytes that
    /// are neither a binary document nor text are an input error.
    pub fn read(data: &[u8]) -> (r: Result<Cfg, CfgError>)
        ensures
            header_ok(data@) ==> (match r {
                Ok(cfg) => decode_document_spec(data@) == Some(
                    (cfg.enum_offset, cfg.inherited_classname@, cfg.model().entries),
                ),
                Err(e) => e is TruncatedOrCorrupt && decode_document_spec(data@) is None,
            }),
            !header_ok(data@) ==> (match r {
                Ok(cfg) => utf8_decode(data@) is Some && parse_text(utf8_decode(data@).unwrap())
                    == Ok::<_, Seq<crate::diag::Diag>>(cfg.model().entries) && cfg.enum_offset == 0
                    && cfg.inherited_classname@.len() == 0,
                Err(e) => match e {
                    CfgError::IoError => utf8_decode(data@) is None,
                    CfgError::ParseError(ds) => utf8_decode(data@) is Some && parse_text(
                        utf8_decode(data@).unwrap(),
                    ) == Err::<Seq<EntryModel>, _>(ds@),
                    _ => false,
                },
            }),
    {
        if check_header(data) {
            match decode_document(data) {
                Some((off, inh, es)) => Ok(
                    Cfg { enum_offset: off, inherited_classname: inh, entries: es },
                ),
                None => Err(CfgError::TruncatedOrCorrupt),
            }
        } else {
            match bytes_to_chars(data) {
                Some(cs) => {
                    match parse_text_x(&cs) {
                        Ok(es) => Ok(
                            Cfg {
                                enum_offset: 0,
                                inherited_classname: String::new(),
                                entries: es,
                            },
                        ),
                        Err(ds) => Err(CfgError::ParseError(ds)),
                    }
                },
                None => Err(CfgError::IoError),
            }
        }
    }

    /// Reads a byte buffer through the dual-encoding entry point.
    pub fn read_data(data: &[u8]) -> (r: Result<Cfg, CfgError>)
        ensures
            header_ok(data@) ==> (match r {
                Ok(cfg) => decode_document_spec(data@) == Some(
                    (cfg.enum_offset, cfg.inherited_classname@, cfg.model().entries),
                ),
                Err(e) => e is TruncatedOrCorrupt && decode_document_spec(data@) is None,
            }),
            !header_ok(data@) ==> (match r {
                Ok(cfg) => utf8_decode(data@) is Some && parse_text(utf8_decode(data@).unwrap())
                    == Ok::<_, Seq<crate::diag::Diag>>(cfg.model().entries) && cfg.enum_offset == 0
                    && cfg.inherited_classname@.len() == 0,
                Err(e) => match e {
                    CfgError::IoError => utf8_decode(data@) is None,
                    CfgError::ParseError(ds) => utf8_decode(data@) is Some && parse_text(
                        utf8_decode(data@).unwrap(),
                    ) == Err::<Seq<EntryModel>, _>(ds@),
                    _ => false,
                },
            }),
    {
        Self::read(data)
    }
}

} // verus!
