use vstd::prelude::*;

use crate::model::{entries_model, values_model, CfgClass, CfgEntry, CfgProperty, CfgValue, EntryModel, ValueModel};
use crate::textutil::chars_to_string;

verus! {

broadcast use vstd::std_specs::vec::group_vec_axioms, vstd::seq::group_seq_axioms;

/// First word of a binary document.
pub const RAP_MAGIC: u32 = 1348563456;

/// The little-endian 32-bit word at `p`.
pub open spec fn le_u32_at(b: Seq<u8>, p: int) -> u32 {
    ((b[p] as int) + 0x100 * (b[p + 1] as int) + 0x10000 * (b[p + 2] as int) + 0x1000000 * (b[
        p + 3
    ] as int)) as u32
}

/// Reading a little-endian u32: four bytes must remain.
pub open spec fn read_u32_spec(b: Seq<u8>, p: int) -> Option<(u32, int)> {
    if 0 <= p && p + 4 <= b.len() {
        Some((le_u32_at(b, p), p + 4))
    } else {
        None
    }
}

/// Position of the first zero byte at or after `p`, or -1 if none remains.
pub open spec fn zt_term(b: Seq<u8>, p: int) -> int
    decreases b.len() - p,
{
    if !(0 <= p < b.len()) {
        -1
    } else if b[p] == 0 {
        p
    } else {
        zt_term(b, p + 1)
    }
}

/// Reading a null-terminated string: the bytes before the terminator, each
/// taken as the character with that code.
pub open spec fn read_zt_spec(b: Seq<u8>, p: int) -> Option<(Seq<char>, int)> {
    let t = zt_term(b, p);
    if t < 0 {
        None
    } else {
        Some((Seq::new((t - p) as nat, |i: int| b[p + i] as char), t + 1))
    }
}

/// Reading a variable-length unsigned integer: little-endian groups of
/// seven bits, the high bit of each byte marking continuation; at most nine
/// bytes, so the last group starts at bit 56.
pub open spec fn read_leb_spec(b: Seq<u8>, p: int, shift: u64, acc: u64) -> Option<(u64, int)>
    decreases b.len() - p,
{
    if !(0 <= p < b.len()) || shift > 56 {
        None
    } else {
        let g = (b[p] & 0x7f) as u64;
        let v = acc | (g << shift);
        if b[p] < 0x80 {
            Some((v, p + 1))
        } else {
            read_leb_spec(b, p + 1, (shift + 7) as u64, v)
        }
    }
}

/// A typed value record: a type byte, then its payload. Type 0 is a
/// little-endian i32, type 1 a binary32 bit pattern, type 2 a
/// null-terminated string, type 3 an array of a counted number of nested
/// value records. Any other type byte is corrupt.
pub open spec fn decode_value_spec(b: Seq<u8>, p: int) -> Option<(ValueModel, int)>
    decreases b.len() - p, 0int, 0int,
{
    if !(0 <= p < b.len()) {
        None
    } else {
        let t = b[p];
        if t == 0 {
            match read_u32_spec(b, p + 1) {
                Some((w, q)) => Some((ValueModel::Long(w as i32), q)),
                None => None,
            }
        } else if t == 1 {
            match read_u32_spec(b, p + 1) {
                Some((w, q)) => Some((ValueModel::Float(w), q)),
                None => None,
            }
        } else if t == 2 {
            match read_zt_spec(b, p + 1) {
                Some((s, q)) => Some((ValueModel::String(s), q)),
                None => None,
            }
        } else if t == 3 {
            match read_leb_spec(b, p + 1, 0, 0) {
                Some((n, q)) => {
                    if q <= p || q > b.len() {
                        None
                    } else {
                        match decode_values_spec(b, q, n as int) {
                            Some((vs, q2)) => Some((ValueModel::Array(vs), q2)),
                            None => None,
                        }
                    }
                },
                None => None,
            }
        } else {
            None
        }
    }
}

/// `n` consecutive value records.
pub open spec fn decode_values_spec(b: Seq<u8>, p: int, n: int) -> Option<(Seq<ValueModel>, int)>
    decreases b.len() - p, 1int, n,
{
    if n <= 0 {
        Some((Seq::empty(), p))
    } else if !(0 <= p <= b.len()) {
        None
    } else {
        match decode_value_spec(b, p) {
            Some((v, q)) => {
                if q <= p || q > b.len() {
                    None
                } else {
                    match decode_values_spec(b, q, n - 1) {
                        Some((vs, q2)) => Some((seq![v] + vs, q2)),
                        None => None,
                    }
                }
            },
            None => None,
        }
    }
}

/// One entry record: a discriminant byte, then a name, then
/// variant-specific fields. Discriminant 0 is a property (name, then a
/// typed value record); 1 is a class (name, a parent flag byte with the
/// parent name after flag 1, a count, then that many nested entry records);
/// 2 is an extern and 3 a delete (name only). Any other discriminant is
/// corrupt.
pub open spec fn decode_entry_spec(b: Seq<u8>, p: int) -> Option<(EntryModel, int)>
    decreases b.len() - p, 2int, 0int,
{
    if !(0 <= p < b.len()) {
        None
    } else {
        let t = b[p];
        if t == 0 {
            match read_zt_spec(b, p + 1) {
                Some((name, q)) => {
                    if q <= p || q > b.len() {
                        None
                    } else {
                        match decode_value_spec(b, q) {
                            Some((v, q2)) => Some((EntryModel::Property(name, v), q2)),
                            None => None,
                        }
                    }
                },
                None => None,
            }
        } else if t == 1 {
            match read_zt_spec(b, p + 1) {
                Some((name, q1)) => match decode_parent_spec(b, q1) {
                    Some((parent, q2)) => match read_leb_spec(b, q2, 0, 0) {
                        Some((n, q3)) => {
                            if q3 <= p || q3 > b.len() {
                                None
                            } else {
                                match decode_entries_spec(b, q3, n as int) {
                                    Some((es, q4)) => Some(
                                        (EntryModel::Class(name, parent, es), q4),
                                    ),
                                    None => None,
                                }
                            }
                        },
                        None => None,
                    },
                    None => None,
                },
                None => None,
            }
        } else if t == 2 {
            match read_zt_spec(b, p + 1) {
                Some((name, q)) => Some((EntryModel::Extern(name), q)),
                None => None,
            }
        } else if t == 3 {
            match read_zt_spec(b, p + 1) {
                Some((name, q)) => Some((EntryModel::Delete(name), q)),
                None => None,
            }
        } else {
            None
        }
    }
}

/// The parent field of a class record: flag byte 0 for none, flag byte 1
/// followed by a null-terminated name; anything else is corrupt.
pub open spec fn decode_parent_spec(b: Seq<u8>, p: int) -> Option<(Option<Seq<char>>, int)> {
    if !(0 <= p < b.len()) {
        None
    } else if b[p] == 0 {
        Some((None, p + 1))
    } else if b[p] == 1 {
        match read_zt_spec(b, p + 1) {
            Some((name, q)) => Some((Some(name), q)),
            None => None,
        }
    } else {
        None
    }
}

/// `n` consecutive entry records.
pub open spec fn decode_entries_spec(b: Seq<u8>, p: int, n: int) -> Option<(Seq<EntryModel>, int)>
    decreases b.len() - p, 3int, n,
{
    if n <= 0 {
        Some((Seq::empty(), p))
    } else if !(0 <= p <= b.len()) {
        None
    } else {
        match decode_entry_spec(b, p) {
            Some((e, q)) => {
                if q <= p || q > b.len() {
                    None
                } else {
                    match decode_entries_spec(b, q, n - 1) {
                        Some((es, q2)) => Some((seq![e] + es, q2)),
                        None => None,
                    }
                }
            },
            None => None,
        }
    }
}

/// The three fixed header words: the magic constant, then 0, then 8.
pub open spec fn header_ok(b: Seq<u8>) -> bool {
    b.len() >= 12 && le_u32_at(b, 0) == RAP_MAGIC && le_u32_at(b, 4) == 0 && le_u32_at(b, 8) == 8
}

/// The whole binary body after a valid header: the enum-table offset word,
/// the inherited class name, the entry count, then that many entries.
/// Trailing bytes after the last entry are ignored.
pub open spec fn decode_document_spec(b: Seq<u8>) -> Option<(u32, Seq<char>, Seq<EntryModel>)> {
    match read_u32_spec(b, 12) {
        Some((off, p0)) => match read_zt_spec(b, p0) {
            Some((inherited, p1)) => match read_leb_spec(b, p1, 0, 0) {
                Some((n, p2)) => match decode_entries_spec(b, p2, n as int) {
                    Some((es, _)) => Some((off, inherited, es)),
                    None => None,
                },
                None => None,
            },
            None => None,
        },
        None => None,
    }
}


/// Reads the little-endian 32-bit word at `p`.
pub fn read_u32(b: &[u8], p: usize) -> (r: Option<(u32, usize)>)
    ensures
        match r {
            Some((v, q)) => read_u32_spec(b@, p as int) == Some((v, q as int)) && p < q <= b@.len(),
            None => read_u32_spec(b@, p as int) is None,
        },
{
    if p < b.len() && b.len() - p >= 4 {
        let v: u32 = (b[p] as u32) + 0x100 * (b[p + 1] as u32) + 0x10000 * (b[p + 2] as u32)
            + 0x1000000 * (b[p + 3] as u32);
        Some((v, p + 4))
    } else {
        None
    }
}

/// Reads a null-terminated string starting at `p`.
pub fn read_zt(b: &[u8], p: usize) -> (r: Option<(String, usize)>)
    ensures
        match r {
            Some((s, q)) => read_zt_spec(b@, p as int) == Some((s@, q as int)) && p < q
                <= b@.len(),
            None => read_zt_spec(b@, p as int) is None,
        },
{
    if p >= b.len() {
        proof {
            assert(zt_term(b@, p as int) == -1);
        }
        return None;
    }
    let mut i: usize = p;
    let mut chars: Vec<char> = Vec::new();
    while i < b.len()
        invariant
            p <= i <= b@.len(),
            zt_term(b@, p as int) == zt_term(b@, i as int),
            chars@.len() == i - p,
            forall|t: int| 0 <= t < i - p ==> chars@[t] == (b@[p + t] as char),
        decreases b@.len() - i,
    {
        if b[i] == 0 {
            let s = chars_to_string(&chars);
            proof {
                assert(zt_term(b@, i as int) == i);
                assert(read_zt_spec(b@, p as int) matches Some((c, q))
                    && c =~= s@ && q == i + 1);
            }
            return Some((s, i + 1));
        }
        let c: char = b[i] as char;
        chars.push(c);
        i += 1;
    }
    proof {
        assert(zt_term(b@, i as int) == -1);
    }
    None
}

/// Reads a variable-length unsigned integer; `shift` and `acc` carry the
/// state of the groups already read.
pub fn read_leb(b: &[u8], p: usize, shift: u64, acc: u64) -> (r: Option<(u64, usize)>)
    ensures
        match r {
            Some((v, q)) => read_leb_spec(b@, p as int, shift, acc) == Some((v, q as int)) && p < q
                <= b@.len(),
            None => read_leb_spec(b@, p as int, shift, acc) is None,
        },
    decreases b@.len() - p,
{
    if p >= b.len() || shift > 56 {
        return None;
    }
    let x = b[p];
    let g = (x & 0x7f) as u64;
    let v = acc | (g << shift);
    if x < 0x80 {
        Some((v, p + 1))
    } else {
        read_leb(b, p + 1, shift + 7, v)
    }
}

/// A sequence of `n` entries needs at least `n` bytes: a shorter tail
/// cannot decode.
pub proof fn lemma_entries_budget(b: Seq<u8>, p: int, n: int)
    ensures
        n > b.len() - p && n > 0 ==> decode_entries_spec(b, p, n) is None,
    decreases n,
{
    if n > b.len() - p && n > 0 && 0 <= p <= b.len() {
        match decode_entry_spec(b, p) {
            Some((e, q)) => {
                if p < q <= b.len() {
                    lemma_entries_budget(b, q, n - 1);
                }
            },
            None => {},
        }
    }
}

/// A sequence of `n` values needs at least `n` bytes: a shorter tail
/// cannot decode.
pub proof fn lemma_values_budget(b: Seq<u8>, p: int, n: int)
    ensures
        n > b.len() - p && n > 0 ==> decode_values_spec(b, p, n) is None,
    decreases n,
{
    if n > b.len() - p && n > 0 && 0 <= p <= b.len() {
        match decode_value_spec(b, p) {
            Some((v, q)) => {
                if p < q <= b.len() {
                    lemma_values_budget(b, q, n - 1);
                }
            },
            None => {},
        }
    }
}

/// Reads one typed value record at `p`.
#[verifier::loop_isolation(false)]
pub fn decode_value(b: &[u8], p: usize) -> (r: Option<(CfgValue, usize)>)
    ensures
        match r {
            Some((v, q)) => decode_value_spec(b@, p as int) == Some((v.model(), q as int)) && p < q
                <= b@.len(),
            None => decode_value_spec(b@, p as int) is None,
        },
    decreases b@.len() - p,
{
    if p >= b.len() {
        return None;
    }
    let t = b[p];
    if t == 0 {
        match read_u32(b, p + 1) {
            Some((w, q)) => Some((CfgValue::Long(#[verifier::truncate] (w as i32)), q)),
            None => None,
        }
    } else if t == 1 {
        match read_u32(b, p + 1) {
            Some((w, q)) => Some((CfgValue::Float(w), q)),
            None => None,
        }
    } else if t == 2 {
        match read_zt(b, p + 1) {
            Some((s, q)) => Some((CfgValue::String(s), q)),
            None => None,
        }
    } else if t == 3 {
        match read_leb(b, p + 1, 0, 0) {
            Some((n, q)) => {
                if n > (b.len() - q) as u64 {
                    proof {
                        lemma_values_budget(b@, q as int, n as int);
                    }
                    return None;
                }
                let count = n as usize;
                let mut vs: Vec<CfgValue> = Vec::new();
                let mut cur: usize = q;
                let mut i: usize = 0;
                proof {
                    assert(forall|rest: Seq<ValueModel>| #[trigger] (values_model(vs@) + rest)
                        =~= rest);
                }
                while i < count
                    invariant
                        p < q <= cur <= b@.len(),
                        i <= count,
                        count <= b@.len(),
                        vs@.len() == i,
                        decode_values_spec(b@, q as int, count as int) == (
                        match decode_values_spec(b@, cur as int, count - i) {
                            Some((rest, e)) => Some((values_model(vs@) + rest, e)),
                            None => None::<(Seq<ValueModel>, int)>,
                        }),
                    decreases count - i,
                {
                    match decode_value(b, cur) {
                        Some((v, q2)) => {
                            proof {
                                assert(values_model(vs@.push(v)) =~= values_model(vs@).push(
                                    v.model(),
                                ));
                                assert(forall|rest: Seq<ValueModel>|
                                    values_model(vs@).push(v.model()) + rest =~= values_model(vs@)
                                        + (seq![v.model()] + rest));
                            }
                            vs.push(v);
                            cur = q2;
                            i += 1;
                        },
                        None => {
                            return None;
                        },
                    }
                }
                proof {
                    assert(decode_values_spec(b@, cur as int, 0) == Some(
                        (Seq::<ValueModel>::empty(), cur as int),
                    ));
                    assert(values_model(vs@) + Seq::<ValueModel>::empty() =~= values_model(vs@));
                    assert(CfgValue::Array(vs).model() is Array);
                    assert(CfgValue::Array(vs).model()->Array_0 =~= values_model(vs@));
                }
                Some((CfgValue::Array(vs), cur))
            },
            None => None,
        }
    } else {
        None
    }
}

/// Reads one entry record at `p`.
#[verifier::loop_isolation(false)]
pub fn decode_entry(b: &[u8], p: usize) -> (r: Option<(CfgEntry, usize)>)
    ensures
        match r {
            Some((e, q)) => decode_entry_spec(b@, p as int) == Some((e.model(), q as int)) && p < q
                <= b@.len(),
            None => decode_entry_spec(b@, p as int) is None,
        },
    decreases b@.len() - p,
{
    if p >= b.len() {
        return None;
    }
    let t = b[p];
    if t == 0 {
        match read_zt(b, p + 1) {
            Some((name, q)) => match decode_value(b, q) {
                Some((v, q2)) => Some(
                    (CfgEntry::Property(CfgProperty { name, value: v }), q2),
                ),
                None => None,
            },
            None => None,
        }
    } else if t == 1 {
        let name = match read_zt(b, p + 1) {
            Some(r) => r,
            None => {
                return None;
            },
        };
        let parent = match decode_parent(b, name.1) {
            Some(r) => r,
            None => {
                return None;
            },
        };
        let cnt = match read_leb(b, parent.1, 0, 0) {
            Some(r) => r,
            None => {
                return None;
            },
        };
        let n = cnt.0;
        let q3 = cnt.1;
        if n > (b.len() - q3) as u64 {
            proof {
                lemma_entries_budget(b@, q3 as int, n as int);
            }
            return None;
        }
        let count = n as usize;
        let mut es: Vec<CfgEntry> = Vec::new();
        let mut cur: usize = q3;
        let mut i: usize = 0;
        proof {
            assert(forall|rest: Seq<EntryModel>| #[trigger] (entries_model(es@) + rest) =~= rest);
        }
        while i < count
            invariant
                p < q3 <= cur <= b@.len(),
                i <= count,
                count <= b@.len(),
                es@.len() == i,
                decode_entries_spec(b@, q3 as int, count as int) == (
                match decode_entries_spec(b@, cur as int, count - i) {
                    Some((rest, e)) => Some((entries_model(es@) + rest, e)),
                    None => None::<(Seq<EntryModel>, int)>,
                }),
            decreases count - i,
        {
            match decode_entry(b, cur) {
                Some((e, q4)) => {
                    proof {
                        assert(entries_model(es@.push(e)) =~= entries_model(es@).push(e.model()));
                        assert(forall|rest: Seq<EntryModel>|
                            entries_model(es@).push(e.model()) + rest =~= entries_model(es@) + (
                            seq![e.model()] + rest));
                    }
                    es.push(e);
                    cur = q4;
                    i += 1;
                },
                None => {
                    return None;
                },
            }
        }
        let cls = CfgEntry::Class(
            CfgClass { name: name.0, parent: parent.0, entries: es },
        );
        proof {
            assert(decode_entries_spec(b@, cur as int, 0) == Some(
                (Seq::<EntryModel>::empty(), cur as int),
            ));
            assert(cls.model() is Class);
            assert(cls.model()->Class_2 =~= entries_model(cls->Class_0.entries@)
                + Seq::<EntryModel>::empty());
        }
        Some((cls, cur))
    } else if t == 2 {
        match read_zt(b, p + 1) {
            Some((name, q)) => Some((CfgEntry::Extern(name), q)),
            None => None,
        }
    } else if t == 3 {
        match read_zt(b, p + 1) {
            Some((name, q)) => Some((CfgEntry::Delete(name), q)),
            None => None,
        }
    } else {
        None
    }
}

/// Reads the parent field of a class record at `p`.
fn decode_parent(b: &[u8], p: usize) -> (r: Option<(Option<String>, usize)>)
    ensures
        match r {
            Some((pr, q)) => decode_parent_spec(b@, p as int) == Some(
                (
                    match pr {
                        Some(s) => Some(s@),
                        None => None::<Seq<char>>,
                    },
                    q as int,
                ),
            ) && p < q <= b@.len(),
            None => decode_parent_spec(b@, p as int) is None,
        },
{
    if p >= b.len() {
        return None;
    }
    if b[p] == 0 {
        Some((None, p + 1))
    } else if b[p] == 1 {
        match read_zt(b, p + 1) {
            Some((s, q)) => Some((Some(s), q)),
            None => None,
        }
    } else {
        None
    }
}

/// Reads the whole binary body after the header.
#[verifier::loop_isolation(false)]
pub fn decode_document(b: &[u8]) -> (r: Option<(u32, String, Vec<CfgEntry>)>)
    ensures
        match r {
            Some((off, inh, es)) => decode_document_spec(b@) == Some(
                (off, inh@, entries_model(es@)),
            ),
            None => decode_document_spec(b@) is None,
        },
{
    let off = match read_u32(b, 12) {
        Some(r) => r,
        None => {
            return None;
        },
    };
    let inh = match read_zt(b, off.1) {
        Some(r) => r,
        None => {
            return None;
        },
    };
    let cnt = match read_leb(b, inh.1, 0, 0) {
        Some(r) => r,
        None => {
            return None;
        },
    };
    let n = cnt.0;
    let p2 = cnt.1;
    if n > (b.len() - p2) as u64 {
        proof {
            lemma_entries_budget(b@, p2 as int, n as int);
        }
        return None;
    }
    let count = n as usize;
    let mut es: Vec<CfgEntry> = Vec::new();
    let mut cur: usize = p2;
    let mut i: usize = 0;
    proof {
        assert(forall|rest: Seq<EntryModel>| #[trigger] (entries_model(es@) + rest) =~= rest);
    }
    while i < count
        invariant
            p2 <= cur <= b@.len(),
            i <= count,
            count <= b@.len(),
            es@.len() == i,
            decode_entries_spec(b@, p2 as int, count as int) == (
            match decode_entries_spec(b@, cur as int, count - i) {
                Some((rest, e)) => Some((entries_model(es@) + rest, e)),
                None => None::<(Seq<EntryModel>, int)>,
            }),
        decreases count - i,
    {
        match decode_entry(b, cur) {
            Some((e, q)) => {
                proof {
                    assert(entries_model(es@.push(e)) =~= entries_model(es@).push(e.model()));
                    assert(forall|rest: Seq<EntryModel>|
                        entries_model(es@).push(e.model()) + rest =~= entries_model(es@) + (
                        seq![e.model()] + rest));
                }
                es.push(e);
                cur = q;
                i += 1;
            },
            None => {
                return None;
            },
        }
    }
    proof {
        assert(decode_entries_spec(b@, cur as int, 0) == Some(
            (Seq::<EntryModel>::empty(), cur as int),
        ));
        assert(entries_model(es@) + Seq::<EntryModel>::empty() =~= entries_model(es@));
    }
    Some((off.0, inh.0, es))
}

/// Checks the three fixed header words.
pub fn check_header(b: &[u8]) -> (r: bool)
    ensures
        r == header_ok(b@),
{
    let w0 = match read_u32(b, 0) {
        Some(r) => r.0,
        None => {
            return false;
        },
    };
    let w1 = match read_u32(b, 4) {
        Some(r) => r.0,
        None => {
            return false;
        },
    };
    let w2 = match read_u32(b, 8) {
        Some(r) => r.0,
        None => {
            return false;
        },
    };
    w0 == RAP_MAGIC && w1 == 0 && w2 == 8
}


/// A decoded run of entries holds exactly the declared count: a body either
/// yields every declared entry or fails as a whole, never a partial run.
pub proof fn lemma_entries_count(b: Seq<u8>, p: int, n: int)
    requires
        decode_entries_spec(b, p, n) is Some,
        n >= 0,
    ensures
        decode_entries_spec(b, p, n).unwrap().0.len() == n,
    decreases n,
{
    if n > 0 && 0 <= p <= b.len() {
        match decode_entry_spec(b, p) {
            Some((e, q)) => {
                if p < q <= b.len() {
                    lemma_entries_count(b, q, n - 1);
                }
            },
            None => {},
        }
    }
}

/// A whole decoded document holds exactly the entry count its header
/// declares.
pub proof fn lemma_document_count(b: Seq<u8>)
    requires
        decode_document_spec(b) is Some,
    ensures
        ({
            let p0 = read_u32_spec(b, 12).unwrap().1;
            let p1 = read_zt_spec(b, p0).unwrap().1;
            let cnt = read_leb_spec(b, p1, 0, 0).unwrap().0;
            decode_document_spec(b).unwrap().2.len() == cnt
        }),
{
    let p0 = read_u32_spec(b, 12).unwrap().1;
    let p1 = read_zt_spec(b, p0).unwrap().1;
    let cnt = read_leb_spec(b, p1, 0, 0).unwrap().0;
    let p2 = read_leb_spec(b, p1, 0, 0).unwrap().1;
    lemma_entries_count(b, p2, cnt as int);
}


/// The four little-endian bytes of a 32-bit word.
pub open spec fn enc_u32(v: u32) -> Seq<u8> {
    seq![
        (v % 0x100) as u8,
        ((v / 0x100) % 0x100) as u8,
        ((v / 0x10000) % 0x100) as u8,
        ((v / 0x1000000) % 0x100) as u8,
    ]
}

/// Reading a word back from its own encoding, wherever it stands in a
/// larger buffer, yields the word and stops right after it.
pub proof fn lemma_u32_round_trip(b: Seq<u8>, p: int, v: u32)
    requires
        0 <= p,
        p + 4 <= b.len(),
        b.subrange(p, p + 4) == enc_u32(v),
    ensures
        read_u32_spec(b, p) == Some((v, p + 4)),
{
    assert(b[p] == enc_u32(v)[0]);
    assert(b[p + 1] == enc_u32(v)[1]);
    assert(b[p + 2] == enc_u32(v)[2]);
    assert(b[p + 3] == enc_u32(v)[3]);
    assert((v % 0x100) + 0x100 * ((v / 0x100) % 0x100) + 0x10000 * ((v / 0x10000) % 0x100)
        + 0x1000000 * ((v / 0x1000000) % 0x100) == v) by (nonlinear_arith);
}

/// The bytes of a count in the variable-length encoding: seven bits per
/// byte, low group first, the high bit marking continuation.
pub open spec fn enc_leb(v: u64) -> Seq<u8>
    decreases v,
{
    if v < 0x80 {
        seq![v as u8]
    } else {
        seq![(v % 0x80 + 0x80) as u8] + enc_leb(v / 0x80)
    }
}

/// Reading a count back from its own encoding, wherever it stands in a
/// larger buffer, resumes the groups already gathered in `acc` below
/// `shift` and yields the whole value.
#[verifier::rlimit(100)]
pub proof fn lemma_leb_round_trip(b: Seq<u8>, p: int, v: u64, shift: u64, acc: u64)
    requires
        0 <= p,
        p + enc_leb(v).len() <= b.len(),
        b.subrange(p, p + enc_leb(v).len()) == enc_leb(v),
        shift <= 56,
        shift % 7 == 0,
        (v as int) * pow2_int(shift as nat) < 0x8000_0000_0000_0000,
    ensures
        read_leb_spec(b, p, shift, acc) == Some(
            (acc | ((v << shift) as u64), p + enc_leb(v).len()),
        ),
    decreases v,
{
    assert(b[p] == enc_leb(v)[0]);
    if v < 0x80 {
        let x: u8 = v as u8;
        assert(x < 0x80);
        assert((((x & 0x7f) as u64) << shift) == ((v << shift) as u64)) by (bit_vector)
            requires
                x == v as u64 as u8,
                v < 0x80,
                shift <= 56,
        ;
    } else {
        let x: u8 = (v % 0x80 + 0x80) as u8;
        assert(x >= 0x80) by (bit_vector)
            requires
                x == ((v % 0x80 + 0x80) as u64) as u8,
                v >= 0x80,
        ;
        lemma_frame_left(b, p, seq![x], enc_leb(v / 0x80));
        proof_pow2_int_mono(shift as nat);
        assert(pow2_int(56nat) == 0x100_0000_0000_0000) by {
            reveal_with_fuel(pow2_int, 58);
        }
        assert(shift <= 49) by {
            if shift > 49 {
                assert(shift == 56);
                assert((v as int) * pow2_int(56nat) >= 0x80 * 0x100_0000_0000_0000)
                    by (nonlinear_arith)
                    requires
                        v >= 0x80,
                        pow2_int(56nat) == 0x100_0000_0000_0000,
                ;
            }
        }
        assert((v >> ((56 - shift) as u64)) < 0x80) by {
            assert(pow2_int((56 - shift) as nat) * pow2_int(shift as nat) == pow2_int(56nat)) by {
                proof_pow2_int_adds((56 - shift) as nat, shift as nat);
            }
            proof_pow2_int_mono((56 - shift) as nat);
            assert((v as int) < 0x80 * pow2_int((56 - shift) as nat)) by (nonlinear_arith)
                requires
                    (v as int) * pow2_int(shift as nat) < 0x8000_0000_0000_0000,
                    pow2_int((56 - shift) as nat) * pow2_int(shift as nat)
                        == 0x100_0000_0000_0000,
                    pow2_int(shift as nat) >= 1,
            ;
            shr_is_div(v, (56 - shift) as u64);
            assert((v as int) / pow2_int((56 - shift) as nat) < 0x80) by (nonlinear_arith)
                requires
                    (v as int) < 0x80 * pow2_int((56 - shift) as nat),
                    pow2_int((56 - shift) as nat) >= 1,
            ;
        }
        assert((v / 0x80) as int * pow2_int((shift + 7) as nat) < 0x8000_0000_0000_0000) by {
            assert(pow2_int((shift + 7) as nat) == 128 * pow2_int(shift as nat)) by {
                proof_pow2_int_adds(7nat, shift as nat);
                assert(pow2_int(7nat) == 128) by {
                    reveal_with_fuel(pow2_int, 9);
                }
            }
            assert((v / 0x80) as int * (128 * pow2_int(shift as nat)) <= (v as int) * pow2_int(
                shift as nat,
            )) by (nonlinear_arith)
                requires
                    v >= 0x80,
                    pow2_int(shift as nat) >= 1,
            ;
        }
        lemma_leb_round_trip(b, p + 1, v / 0x80, (shift + 7) as u64, acc | (((x & 0x7f) as u64)
            << shift));
        assert((acc | (((x & 0x7f) as u64) << shift)) | (((v / 0x80) << (shift + 7)) as u64) == acc
            | ((v << shift) as u64)) by (bit_vector)
            requires
                x == ((v % 0x80 + 0x80) as u64) as u8,
                v >= 0x80,
                shift <= 49,
                (v >> ((56 - shift) as u64)) < 0x80,
        ;
    }
}

/// Two to the `k`, for the count arithmetic.
pub open spec fn pow2_int(k: nat) -> int
    decreases k,
{
    if k == 0 {
        1
    } else {
        2 * pow2_int((k - 1) as nat)
    }
}

proof fn proof_pow2_int_mono(k: nat)
    ensures
        pow2_int(k) >= 1,
    decreases k,
{
    if k > 0 {
        proof_pow2_int_mono((k - 1) as nat);
    }
}

proof fn proof_pow2_int_adds(a: nat, b: nat)
    ensures
        pow2_int(a) * pow2_int(b) == pow2_int((a + b) as nat),
    decreases a,
{
    if a > 0 {
        proof_pow2_int_adds((a - 1) as nat, b);
        assert(pow2_int(a) * pow2_int(b) == 2 * (pow2_int((a - 1) as nat) * pow2_int(b)))
            by (nonlinear_arith)
            requires
                pow2_int(a) == 2 * pow2_int((a - 1) as nat),
        ;
    }
}

proof fn shr_is_div(v: u64, k: u64)
    requires
        k < 64,
    ensures
        (v >> k) as int == (v as int) / pow2_int(k as nat),
    decreases k,
{
    if k == 0 {
        assert(v >> 0u64 == v) by (bit_vector);
    } else {
        shr_is_div(v, (k - 1) as u64);
        assert(v >> k == (v >> ((k - 1) as u64)) / 2) by (bit_vector)
            requires
                0 < k < 64,
        ;
        proof_pow2_int_mono((k - 1) as nat);
        assert(((v as int) / pow2_int((k - 1) as nat)) / 2 == (v as int) / (pow2_int(
            (k - 1) as nat,
        ) * 2)) by {
            vstd::arithmetic::div_mod::lemma_div_denominator(
                v as int,
                pow2_int((k - 1) as nat),
                2,
            );
        }
    }
}

/// A name fit for a null-terminated string: every character a nonzero code
/// below 256.
pub open spec fn wf_name(s: Seq<char>) -> bool {
    forall|i: int| 0 <= i < s.len() ==> 0 < (#[trigger] s[i] as u32) && (s[i] as u32) < 256
}

/// A value the reference encoder can emit: strings are encodable names and
/// array element counts fit the variable-length encoding.
pub open spec fn wf_value(v: ValueModel) -> bool
    decreases v, 0int, 0int,
{
    match v {
        ValueModel::Long(_) => true,
        ValueModel::Float(_) => true,
        ValueModel::String(s) => wf_name(s),
        ValueModel::Array(vs) => vs.len() < 0x8000_0000_0000_0000 && wf_values_at(vs, 0),
    }
}

pub open spec fn wf_values_at(vs: Seq<ValueModel>, i: int) -> bool
    decreases vs, 1int, vs.len() - i,
{
    if !(0 <= i < vs.len()) {
        true
    } else {
        wf_value(vs[i]) && wf_values_at(vs, i + 1)
    }
}

/// An entry the reference encoder can emit: names encodable, values
/// well-formed, class body counts fitting the variable-length encoding.
pub open spec fn wf_entry(e: EntryModel) -> bool
    decreases e, 0int, 0int,
{
    match e {
        EntryModel::Property(n, v) => wf_name(n) && wf_value(v),
        EntryModel::Class(n, parent, body) => wf_name(n) && (match parent {
            Some(pn) => wf_name(pn),
            None => true,
        }) && body.len() < 0x8000_0000_0000_0000 && wf_entries_at(body, 0),
        EntryModel::Extern(n) => wf_name(n),
        EntryModel::Delete(n) => wf_name(n),
    }
}

pub open spec fn wf_entries_at(es: Seq<EntryModel>, i: int) -> bool
    decreases es, 1int, es.len() - i,
{
    if !(0 <= i < es.len()) {
        true
    } else {
        wf_entry(es[i]) && wf_entries_at(es, i + 1)
    }
}

/// The bytes of a name with its terminator.
pub open spec fn enc_name(s: Seq<char>) -> Seq<u8> {
    Seq::new(s.len(), |i: int| if 0 <= i < s.len() {
        s[i] as u8
    } else {
        0u8
    }) + seq![0u8]
}

/// The bytes of one typed value record.
pub open spec fn enc_value(v: ValueModel) -> Seq<u8>
    decreases v, 0int, 0int,
{
    match v {
        ValueModel::Long(n) => seq![0u8] + enc_u32(n as u32),
        ValueModel::Float(b) => seq![1u8] + enc_u32(b),
        ValueModel::String(s) => seq![2u8] + enc_name(s),
        ValueModel::Array(vs) => seq![3u8] + enc_leb(vs.len() as u64) + enc_values_at(vs, 0),
    }
}

pub open spec fn enc_values_at(vs: Seq<ValueModel>, i: int) -> Seq<u8>
    decreases vs, 1int, vs.len() - i,
{
    if !(0 <= i < vs.len()) {
        Seq::empty()
    } else {
        enc_value(vs[i]) + enc_values_at(vs, i + 1)
    }
}

/// The bytes of a class record's parent field.
pub open spec fn enc_parent(parent: Option<Seq<char>>) -> Seq<u8> {
    match parent {
        None => seq![0u8],
        Some(n) => seq![1u8] + enc_name(n),
    }
}

/// The bytes of one entry record.
pub open spec fn enc_entry(e: EntryModel) -> Seq<u8>
    decreases e, 0int, 0int,
{
    match e {
        EntryModel::Property(n, v) => seq![0u8] + enc_name(n) + enc_value(v),
        EntryModel::Class(n, parent, body) => seq![1u8] + enc_name(n) + enc_parent(parent)
            + enc_leb(body.len() as u64) + enc_entries_at(body, 0),
        EntryModel::Extern(n) => seq![2u8] + enc_name(n),
        EntryModel::Delete(n) => seq![3u8] + enc_name(n),
    }
}

pub open spec fn enc_entries_at(es: Seq<EntryModel>, i: int) -> Seq<u8>
    decreases es, 1int, es.len() - i,
{
    if !(0 <= i < es.len()) {
        Seq::empty()
    } else {
        enc_entry(es[i]) + enc_entries_at(es, i + 1)
    }
}

/// The reference encoding of a whole document: the three header words, the
/// enum-table offset, the inherited class name, the entry count and the
/// entries.
pub open spec fn enc_document(off: u32, inherited: Seq<char>, es: Seq<EntryModel>) -> Seq<u8> {
    enc_u32(RAP_MAGIC) + enc_u32(0) + enc_u32(8) + enc_u32(off) + enc_name(inherited) + enc_leb(
        es.len() as u64,
    ) + enc_entries_at(es, 0)
}

/// A character with a nonzero code below 256 survives the byte round trip.
proof fn lemma_char_u8(c: char)
    requires
        0 < (c as u32) && (c as u32) < 256,
    ensures
        (c as u8) != 0,
        ((c as u8) as char) == c,
        ((c as u8) as u32) == c as u32,
{
}

/// Reading a name back from its own encoding, wherever it stands in a
/// larger buffer, yields the name and stops right after its terminator.
pub proof fn lemma_name_round_trip(b: Seq<u8>, p: int, s: Seq<char>)
    requires
        0 <= p,
        p + s.len() + 1 <= b.len(),
        b.subrange(p, p + s.len() + 1) == enc_name(s),
        wf_name(s),
    ensures
        read_zt_spec(b, p) == Some((s, p + s.len() + 1)),
    decreases s.len(),
{
    assert(b[p] == enc_name(s)[0]);
    if s.len() == 0 {
        assert(b[p] == 0);
        assert(zt_term(b, p) == p);
        assert(read_zt_spec(b, p).unwrap().0 =~= s);
    } else {
        assert(0 < (s[0] as u32) && (s[0] as u32) < 256);
        lemma_char_u8(s[0]);
        assert(b[p] == s[0] as u8);
        assert(b[p] != 0);
        let rest = s.skip(1);
        assert(b.subrange(p + 1, p + 1 + rest.len() + 1) =~= enc_name(rest)) by {
            assert forall|i: int| 0 <= i < rest.len() + 1 implies b.subrange(
                p + 1,
                p + 1 + rest.len() + 1,
            )[i] == enc_name(rest)[i] by {
                assert(b.subrange(p + 1, p + 1 + rest.len() + 1)[i] == b[p + 1 + i]);
                assert(b[p + 1 + i] == b.subrange(p, p + s.len() + 1)[i + 1]);
                if i < rest.len() {
                    assert(enc_name(s)[i + 1] == s[i + 1] as u8);
                    assert(rest[i] == s[i + 1]);
                }
            }
        }
        lemma_name_round_trip(b, p + 1, rest);
        assert(zt_term(b, p) == zt_term(b, p + 1));
        assert(zt_term(b, p + 1) == p + 1 + rest.len());
        assert(read_zt_spec(b, p).unwrap().0 =~= s) by {
            assert forall|i: int| 0 <= i < s.len() implies read_zt_spec(b, p).unwrap().0[i]
                == s[i] by {
                assert(0 < (s[i] as u32) && (s[i] as u32) < 256);
                lemma_char_u8(s[i]);
                assert(read_zt_spec(b, p).unwrap().0[i] == b[p + i] as char);
                assert(b[p + i] == b.subrange(p, p + s.len() + 1)[i]);
                assert(b[p + i] == s[i] as u8);
            }
        }
    }
}

/// Framing: the bytes of the left part of a concatenation placed at `p`.
proof fn lemma_frame_left(b: Seq<u8>, p: int, x: Seq<u8>, y: Seq<u8>)
    requires
        0 <= p,
        p + x.len() + y.len() <= b.len(),
        b.subrange(p, p + x.len() + y.len()) == x + y,
    ensures
        b.subrange(p, p + x.len()) == x,
        b.subrange(p + x.len(), p + x.len() + y.len()) == y,
{
    assert(b.subrange(p, p + x.len()) =~= x) by {
        assert forall|i: int| 0 <= i < x.len() implies b.subrange(p, p + x.len())[i] == x[i] by {
            assert(b[p + i] == b.subrange(p, p + x.len() + y.len())[i]);
        }
    }
    assert(b.subrange(p + x.len(), p + x.len() + y.len()) =~= y) by {
        assert forall|i: int| 0 <= i < y.len() implies b.subrange(
            p + x.len(),
            p + x.len() + y.len(),
        )[i] == y[i] by {
            assert(b[p + x.len() + i] == b.subrange(p, p + x.len() + y.len())[x.len() + i]);
        }
    }
}

/// Reading a value record back from its own encoding yields the value.
pub proof fn lemma_value_round_trip(b: Seq<u8>, p: int, v: ValueModel)
    requires
        0 <= p,
        p + enc_value(v).len() <= b.len(),
        b.subrange(p, p + enc_value(v).len()) == enc_value(v),
        wf_value(v),
    ensures
        decode_value_spec(b, p) == Some((v, p + enc_value(v).len())),
    decreases v, 0int, 0int,
{
    assert(b[p] == enc_value(v)[0]);
    match v {
        ValueModel::Long(n) => {
            lemma_frame_left(b, p, seq![0u8], enc_u32(n as u32));
            lemma_u32_round_trip(b, p + 1, n as u32);
            assert((n as u32) as i32 == n) by (bit_vector);
        },
        ValueModel::Float(w) => {
            lemma_frame_left(b, p, seq![1u8], enc_u32(w));
            lemma_u32_round_trip(b, p + 1, w);
        },
        ValueModel::String(s) => {
            lemma_frame_left(b, p, seq![2u8], enc_name(s));
            lemma_name_round_trip(b, p + 1, s);
        },
        ValueModel::Array(vs) => {
            let cnt = enc_leb(vs.len() as u64);
            assert(enc_value(v) =~= seq![3u8] + (cnt + enc_values_at(vs, 0)));
            lemma_frame_left(b, p, seq![3u8], cnt + enc_values_at(vs, 0));
            lemma_frame_left(b, p + 1, cnt, enc_values_at(vs, 0));
            lemma_leb_round_trip(b, p + 1, vs.len() as u64, 0, 0);
            let n: u64 = vs.len() as u64;
            assert((0u64 | ((n << 0u64) as u64)) == n) by (bit_vector);
            lemma_values_round_trip(b, p + 1 + cnt.len(), vs, 0);
            assert(vs.subrange(0, vs.len() as int) =~= vs);
        },
    }
}

/// Reading the element run `vs[i..]` back from its own encoding yields
/// those elements in order.
pub proof fn lemma_values_round_trip(b: Seq<u8>, p: int, vs: Seq<ValueModel>, i: int)
    requires
        0 <= p,
        0 <= i <= vs.len(),
        p + enc_values_at(vs, i).len() <= b.len(),
        b.subrange(p, p + enc_values_at(vs, i).len()) == enc_values_at(vs, i),
        wf_values_at(vs, i),
    ensures
        decode_values_spec(b, p, vs.len() - i) == Some(
            (vs.subrange(i, vs.len() as int), p + enc_values_at(vs, i).len()),
        ),
    decreases vs, 1int, vs.len() - i,
{
    if i == vs.len() {
        assert(vs.subrange(i, vs.len() as int) =~= Seq::<ValueModel>::empty());
    } else {
        lemma_frame_left(b, p, enc_value(vs[i]), enc_values_at(vs, i + 1));
        lemma_value_round_trip(b, p, vs[i]);
        let q = p + enc_value(vs[i]).len();
        assert(enc_value(vs[i]).len() > 0);
        lemma_values_round_trip(b, q, vs, i + 1);
        assert(seq![vs[i]] + vs.subrange(i + 1, vs.len() as int) =~= vs.subrange(
            i,
            vs.len() as int,
        ));
    }
}

/// Reading an entry record back from its own encoding yields the entry.
pub proof fn lemma_entry_round_trip(b: Seq<u8>, p: int, e: EntryModel)
    requires
        0 <= p,
        p + enc_entry(e).len() <= b.len(),
        b.subrange(p, p + enc_entry(e).len()) == enc_entry(e),
        wf_entry(e),
    ensures
        decode_entry_spec(b, p) == Some((e, p + enc_entry(e).len())),
    decreases e, 0int, 0int,
{
    assert(b[p] == enc_entry(e)[0]);
    match e {
        EntryModel::Property(n, v) => {
            assert(enc_entry(e) =~= seq![0u8] + (enc_name(n) + enc_value(v)));
            lemma_frame_left(b, p, seq![0u8], enc_name(n) + enc_value(v));
            lemma_frame_left(b, p + 1, enc_name(n), enc_value(v));
            lemma_name_round_trip(b, p + 1, n);
            lemma_value_round_trip(b, p + 1 + n.len() + 1, v);
        },
        EntryModel::Class(n, parent, body) => {
            let c2 = enc_name(n);
            let c3 = enc_parent(parent);
            let c4 = enc_leb(body.len() as u64);
            let c5 = enc_entries_at(body, 0);
            assert(enc_entry(e) =~= seq![1u8] + (c2 + (c3 + (c4 + c5))));
            lemma_frame_left(b, p, seq![1u8], c2 + (c3 + (c4 + c5)));
            let p1 = p + 1;
            lemma_frame_left(b, p1, c2, c3 + (c4 + c5));
            lemma_name_round_trip(b, p1, n);
            let p2 = p1 + n.len() + 1;
            lemma_frame_left(b, p2, c3, c4 + c5);
            match parent {
                None => {
                    assert(b[p2] == enc_parent(parent)[0]);
                    assert(decode_parent_spec(b, p2) == Some(
                        (None::<Seq<char>>, p2 + 1),
                    ));
                },
                Some(pn) => {
                    assert(b[p2] == enc_parent(parent)[0]);
                    lemma_frame_left(b, p2, seq![1u8], enc_name(pn));
                    lemma_name_round_trip(b, p2 + 1, pn);
                },
            }
            let p3 = p2 + enc_parent(parent).len();
            lemma_frame_left(b, p3, c4, c5);
            lemma_leb_round_trip(b, p3, body.len() as u64, 0, 0);
            let bn: u64 = body.len() as u64;
            assert((0u64 | ((bn << 0u64) as u64)) == bn) by (bit_vector);
            lemma_entries_round_trip(b, p3 + c4.len(), body, 0);
            assert(body.subrange(0, body.len() as int) =~= body);
        },
        EntryModel::Extern(n) => {
            lemma_frame_left(b, p, seq![2u8], enc_name(n));
            lemma_name_round_trip(b, p + 1, n);
        },
        EntryModel::Delete(n) => {
            lemma_frame_left(b, p, seq![3u8], enc_name(n));
            lemma_name_round_trip(b, p + 1, n);
        },
    }
}

/// Reading the entry run `es[i..]` back from its own encoding yields those
/// entries in order.
pub proof fn lemma_entries_round_trip(b: Seq<u8>, p: int, es: Seq<EntryModel>, i: int)
    requires
        0 <= p,
        0 <= i <= es.len(),
        p + enc_entries_at(es, i).len() <= b.len(),
        b.subrange(p, p + enc_entries_at(es, i).len()) == enc_entries_at(es, i),
        wf_entries_at(es, i),
    ensures
        decode_entries_spec(b, p, es.len() - i) == Some(
            (es.subrange(i, es.len() as int), p + enc_entries_at(es, i).len()),
        ),
    decreases es, 1int, es.len() - i,
{
    if i == es.len() {
        assert(es.subrange(i, es.len() as int) =~= Seq::<EntryModel>::empty());
    } else {
        lemma_frame_left(b, p, enc_entry(es[i]), enc_entries_at(es, i + 1));
        lemma_entry_round_trip(b, p, es[i]);
        let q = p + enc_entry(es[i]).len();
        assert(enc_entry(es[i]).len() > 0);
        lemma_entries_round_trip(b, q, es, i + 1);
        assert(seq![es[i]] + es.subrange(i + 1, es.len() as int) =~= es.subrange(
            i,
            es.len() as int,
        ));
    }
}

/// The whole-document round trip: any well-formed document model read back
/// from its reference encoding yields exactly that model — the header
/// metadata byte-exact and every entry, value, name and nesting level
/// structurally equal. Trailing bytes after the encoding are ignored.
/// Through the contracts of the binary entry points, which pin their
/// results to this decoding, the same holds of reading such bytes.
pub proof fn lemma_document_round_trip(b: Seq<u8>, off: u32, inherited: Seq<char>, es: Seq<EntryModel>)
    requires
        enc_document(off, inherited, es).len() <= b.len(),
        b.subrange(0, enc_document(off, inherited, es).len() as int) == enc_document(
            off,
            inherited,
            es,
        ),
        wf_name(inherited),
        es.len() < 0x8000_0000_0000_0000,
        wf_entries_at(es, 0),
    ensures
        header_ok(b),
        decode_document_spec(b) == Some((off, inherited, es)),
{
    let whole = enc_document(off, inherited, es);
    let a1 = enc_u32(RAP_MAGIC);
    let a2 = enc_u32(0);
    let a3 = enc_u32(8);
    let a4 = enc_u32(off);
    let a5 = enc_name(inherited);
    let a6 = enc_leb(es.len() as u64);
    let a7 = enc_entries_at(es, 0);
    assert(whole =~= a1 + (a2 + (a3 + (a4 + (a5 + (a6 + a7))))));
    lemma_frame_left(b, 0, a1, a2 + (a3 + (a4 + (a5 + (a6 + a7)))));
    lemma_u32_round_trip(b, 0, RAP_MAGIC);
    lemma_frame_left(b, 4, a2, a3 + (a4 + (a5 + (a6 + a7))));
    lemma_u32_round_trip(b, 4, 0);
    lemma_frame_left(b, 8, a3, a4 + (a5 + (a6 + a7)));
    lemma_u32_round_trip(b, 8, 8);
    lemma_frame_left(b, 12, a4, a5 + (a6 + a7));
    lemma_u32_round_trip(b, 12, off);
    lemma_frame_left(b, 16, a5, a6 + a7);
    lemma_name_round_trip(b, 16, inherited);
    let p1: int = 16 + (inherited.len() as int) + 1;
    lemma_frame_left(b, p1, a6, a7);
    lemma_leb_round_trip(b, p1, es.len() as u64, 0, 0);
    let dn: u64 = es.len() as u64;
    assert((0u64 | ((dn << 0u64) as u64)) == dn) by (bit_vector);
    lemma_entries_round_trip(b, p1 + a6.len(), es, 0);
    assert(es.subrange(0, es.len() as int) =~= es);
}

} // verus!
