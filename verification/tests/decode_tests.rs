use rap_config::{Cfg, CfgClass, CfgEntry, CfgError, CfgProperty, CfgValue, EntryReturn};

fn parse_one_value(text: &str) -> CfgValue {
    let cfg = Cfg::parse_config(text).expect("text should parse");
    assert_eq!(cfg.entries.len(), 1);
    match &cfg.entries[0] {
        CfgEntry::Property(p) => p.value.duplicate(),
        other => panic!("expected a property, got {:?}", other),
    }
}

#[test]
fn integer_scalar() {
    assert_eq!(parse_one_value("x=1;"), CfgValue::Long(1));
}

#[test]
fn whole_float_becomes_integer() {
    // A numeric literal whose binary32 value has no fractional part is an
    // integer value, so `1.0` and `1e2` both land as integers.
    assert_eq!(parse_one_value("x=1.0;"), CfgValue::Long(1));
    assert_eq!(parse_one_value("x=1e2;"), CfgValue::Long(100));
}

#[test]
fn leading_zeros_are_lexically_valid() {
    assert_eq!(parse_one_value("x=0003;"), CfgValue::Long(3));
}

#[test]
fn fractional_float() {
    assert_eq!(parse_one_value("x=1.5;"), CfgValue::Float(1.5f32.to_bits()));
    assert_eq!(parse_one_value("x=0.1;"), CfgValue::Float(0.1f32.to_bits()));
    assert_eq!(parse_one_value("x=-2.25;"), CfgValue::Float((-2.25f32).to_bits()));
}

#[test]
fn negative_integer() {
    assert_eq!(parse_one_value("x=-7;"), CfgValue::Long(-7));
}

#[test]
fn float_rounding_decides_integerness() {
    // 16777217 is not representable in binary32; it rounds to 16777216,
    // which has zero fractional part.
    assert_eq!(parse_one_value("x=16777217;"), CfgValue::Long(16777216));
    // A huge integer saturates the 32-bit cast.
    assert_eq!(parse_one_value("x=2147483648;"), CfgValue::Long(2147483647));
}

#[test]
fn string_concatenation() {
    assert_eq!(parse_one_value("s = \"a\" \\n \"b\";"), CfgValue::String("a\nb".to_string()));
}

#[test]
fn string_escaped_quote() {
    assert_eq!(parse_one_value("s = \"he said \"\"hi\"\"\";"), CfgValue::String("he said \"hi\"".to_string()));
}

#[test]
fn array_with_trailing_comma_and_nesting() {
    let expected = CfgValue::Array(vec![
        CfgValue::Long(1),
        CfgValue::Long(2),
        CfgValue::Array(vec![CfgValue::Long(3), CfgValue::Long(4)]),
    ]);
    assert_eq!(parse_one_value("a[] = {1,2,{3,4},};"), expected);
}

#[test]
fn empty_array() {
    assert_eq!(parse_one_value("a[] = {};"), CfgValue::Array(vec![]));
}

#[test]
fn comments_are_skipped() {
    let text = "// leading\nx = 1; /* between */ y = 2;\n";
    let cfg = Cfg::parse_config(text).expect("should parse");
    assert_eq!(cfg.entries.len(), 2);
}

#[test]
fn extern_and_delete_declarations() {
    let cfg = Cfg::parse_config("class Foo;").expect("should parse");
    assert_eq!(cfg.entries, vec![CfgEntry::Extern("Foo".to_string())]);
    let cfg = Cfg::parse_config("delete Foo;").expect("should parse");
    assert_eq!(cfg.entries, vec![CfgEntry::Delete("Foo".to_string())]);
}

#[test]
fn class_nesting_and_lookup() {
    let cfg = Cfg::parse_config("class A { class B { x=5; }; };").expect("should parse");
    match cfg.get_entry(&["A", "B", "x"]) {
        Some(EntryReturn::Value(v)) => assert_eq!(v, CfgValue::Long(5)),
        other => panic!("expected the value of x, got {:?}", other),
    }
    assert!(cfg.get_entry(&["A", "Z"]).is_none());
}

#[test]
fn lookup_returns_class_on_full_path() {
    let cfg = Cfg::parse_config("class A : P { x=1; };").expect("should parse");
    match cfg.get_entry(&["A"]) {
        Some(EntryReturn::Entry(CfgEntry::Class(c))) => {
            assert_eq!(c.name, "A");
            assert_eq!(c.parent.as_deref(), Some("P"));
            assert_eq!(c.entries.len(), 1);
        },
        other => panic!("expected the class itself, got {:?}", other),
    }
}

#[test]
fn lookup_first_match_wins() {
    let cfg = Cfg::parse_config("class A { x=1; }; class A { y=2; };").expect("should parse");
    // The first class named A decides the outcome, even though the second
    // one holds y.
    assert!(cfg.get_entry(&["A", "y"]).is_none());
}

#[test]
fn parse_error_has_spanned_diagnostic() {
    let text = "x=1";
    match Cfg::parse_config(text) {
        Err(CfgError::ParseError(ds)) => {
            assert!(ds.len() >= 1);
            assert!(ds[0].lo <= 3 && ds[0].hi <= 3);
        },
        other => panic!("expected a parse error, got {:?}", other),
    }
}

#[test]
fn multiple_errors_in_one_aggregate() {
    let text = "x 1; y 2;";
    match Cfg::parse_config(text) {
        Err(CfgError::ParseError(ds)) => assert!(ds.len() >= 2),
        other => panic!("expected a parse error, got {:?}", other),
    }
}

fn push_u32(out: &mut Vec<u8>, v: u32) {
    out.extend_from_slice(&v.to_le_bytes());
}

fn push_zt(out: &mut Vec<u8>, s: &str) {
    out.extend_from_slice(s.as_bytes());
    out.push(0);
}

fn header(enum_offset: u32, inherited: &str, count: u8) -> Vec<u8> {
    let mut b = Vec::new();
    push_u32(&mut b, 1348563456);
    push_u32(&mut b, 0);
    push_u32(&mut b, 8);
    push_u32(&mut b, enum_offset);
    push_zt(&mut b, inherited);
    b.push(count);
    b
}

#[test]
fn binary_document_round_trips_metadata() {
    let mut b = header(77, "root", 2);
    // property: discriminant 0, name, value type 0 (long), payload
    b.push(0);
    push_zt(&mut b, "x");
    b.push(0);
    push_u32(&mut b, 5);
    // class: discriminant 1, name, parent flag 1 + name, count 1, one extern
    b.push(1);
    push_zt(&mut b, "A");
    b.push(1);
    push_zt(&mut b, "P");
    b.push(1);
    b.push(2);
    push_zt(&mut b, "Fwd");
    let cfg = Cfg::read(&b).expect("binary should decode");
    assert_eq!(cfg.enum_offset, 77);
    assert_eq!(cfg.inherited_classname, "root");
    assert_eq!(cfg.entries.len(), 2);
    assert_eq!(
        cfg.entries[0],
        CfgEntry::Property(CfgProperty { name: "x".to_string(), value: CfgValue::Long(5) })
    );
    assert_eq!(
        cfg.entries[1],
        CfgEntry::Class(CfgClass {
            name: "A".to_string(),
            parent: Some("P".to_string()),
            entries: vec![CfgEntry::Extern("Fwd".to_string())],
        })
    );
}

#[test]
fn binary_value_kinds_decode() {
    let mut b = header(0, "", 3);
    b.push(0);
    push_zt(&mut b, "f");
    b.push(1);
    push_u32(&mut b, 1.25f32.to_bits());
    b.push(0);
    push_zt(&mut b, "s");
    b.push(2);
    push_zt(&mut b, "hi");
    b.push(0);
    push_zt(&mut b, "a");
    b.push(3);
    b.push(2);
    b.push(0);
    push_u32(&mut b, 1);
    b.push(0);
    push_u32(&mut b, 2);
    let cfg = Cfg::read_config(&b).expect("binary should decode");
    assert_eq!(cfg.entries.len(), 3);
    match &cfg.entries[0] {
        CfgEntry::Property(p) => assert_eq!(p.value, CfgValue::Float(1.25f32.to_bits())),
        other => panic!("unexpected {:?}", other),
    }
    match &cfg.entries[1] {
        CfgEntry::Property(p) => assert_eq!(p.value, CfgValue::String("hi".to_string())),
        other => panic!("unexpected {:?}", other),
    }
    match &cfg.entries[2] {
        CfgEntry::Property(p) => assert_eq!(
            p.value,
            CfgValue::Array(vec![CfgValue::Long(1), CfgValue::Long(2)])
        ),
        other => panic!("unexpected {:?}", other),
    }
}

#[test]
fn wrong_magic_fails_binary_entry_point() {
    let b = b"x=1;".to_vec();
    match Cfg::read_config(&b) {
        Err(CfgError::InvalidFormat) => {},
        other => panic!("expected InvalidFormat, got {:?}", other),
    }
}

#[test]
fn wrong_magic_falls_through_to_text() {
    let b = b"x=1;".to_vec();
    let cfg = Cfg::read(&b).expect("text fallback should parse");
    assert_eq!(
        cfg.entries,
        vec![CfgEntry::Property(CfgProperty { name: "x".to_string(), value: CfgValue::Long(1) })]
    );
}

#[test]
fn truncated_body_is_fatal() {
    // Declared entry count exceeds the remaining bytes.
    let b = header(0, "", 3);
    match Cfg::read_config(&b) {
        Err(CfgError::TruncatedOrCorrupt) => {},
        other => panic!("expected TruncatedOrCorrupt, got {:?}", other),
    }
    match Cfg::read(&b) {
        Err(CfgError::TruncatedOrCorrupt) => {},
        other => panic!("expected TruncatedOrCorrupt, got {:?}", other),
    }
}

#[test]
fn unknown_discriminant_is_corrupt() {
    let mut b = header(0, "", 1);
    b.push(9);
    push_zt(&mut b, "x");
    match Cfg::read_config(&b) {
        Err(CfgError::TruncatedOrCorrupt) => {},
        other => panic!("expected TruncatedOrCorrupt, got {:?}", other),
    }
}

#[test]
fn unclosed_string_is_a_parse_error() {
    match Cfg::parse_config("s = \"oops;") {
        Err(CfgError::ParseError(ds)) => assert!(ds.len() >= 1),
        other => panic!("expected a parse error, got {:?}", other),
    }
}

#[test]
fn unclosed_comment_is_a_parse_error() {
    match Cfg::parse_config("x = 1; /* never closed") {
        Err(CfgError::ParseError(ds)) => assert!(ds.len() >= 1),
        other => panic!("expected a parse error, got {:?}", other),
    }
}

fn value_to_text(v: &CfgValue) -> String {
    match v {
        CfgValue::Long(n) => format!("{}", n),
        CfgValue::Float(b) => format!("{}", f32::from_bits(*b)),
        CfgValue::String(s) => format!("\"{}\"", s.replace('"', "\"\"")),
        CfgValue::Array(a) => {
            let inner: Vec<String> = a.iter().map(value_to_text).collect();
            format!("{{{}}}", inner.join(","))
        },
    }
}

fn entry_to_text(e: &CfgEntry) -> String {
    match e {
        CfgEntry::Property(p) => match &p.value {
            CfgValue::Array(_) => format!("{}[] = {};", p.name, value_to_text(&p.value)),
            _ => format!("{} = {};", p.name, value_to_text(&p.value)),
        },
        CfgEntry::Class(c) => {
            let body: Vec<String> = c.entries.iter().map(entry_to_text).collect();
            match &c.parent {
                Some(p) => format!("class {} : {} {{ {} }};", c.name, p, body.join(" ")),
                None => format!("class {} {{ {} }};", c.name, body.join(" ")),
            }
        },
        CfgEntry::Extern(n) => format!("class {};", n),
        CfgEntry::Delete(n) => format!("delete {};", n),
    }
}

#[test]
fn reparse_of_canonical_text_is_idempotent() {
    let text = "class A : P { x = 1; f = 2.5; s = \"hi\"; a[] = {1,{2,3}}; class B { y=4; }; };\nclass Fwd;\ndelete Old;\nz = -7;";
    let cfg = Cfg::parse_config(text).expect("should parse");
    let rendered: Vec<String> = cfg.entries.iter().map(entry_to_text).collect();
    let cfg2 = Cfg::parse_config(&rendered.join("\n")).expect("canonical text should parse");
    assert_eq!(cfg, cfg2);
}

#[test]
fn class_parent_requires_brace() {
    // `class A : B ; };` must not silently treat the `;` as the opening
    // brace of the body.
    match Cfg::parse_config("class A : B ; };") {
        Err(CfgError::ParseError(ds)) => assert!(ds.len() >= 1),
        other => panic!("expected a parse error, got {:?}", other),
    }
    match Cfg::parse_config("class A : B x = 1; };") {
        Err(CfgError::ParseError(ds)) => assert!(ds.len() >= 1),
        other => panic!("expected a parse error, got {:?}", other),
    }
    // The well-formed shape still parses.
    let cfg = Cfg::parse_config("class A : B { x = 1; };").expect("should parse");
    assert_eq!(cfg.entries.len(), 1);
}

#[test]
fn subnormal_literals_round_like_reference_parsing() {
    for lit in ["1e-40", "1.5e-40", "9e-44", "1.4e-45", "2e-45", "7e-46", "1e-46", "1e-50"] {
        let reference = lit.parse::<f32>().unwrap();
        let got = parse_one_value(&format!("x={};", lit));
        if reference == 0.0 && reference.fract() == 0.0 {
            assert_eq!(got, CfgValue::Long(0), "literal {}", lit);
        } else {
            assert_eq!(got, CfgValue::Float(reference.to_bits()), "literal {}", lit);
        }
    }
}

#[test]
fn long_literals_round_like_reference_parsing() {
    // More significant digits than the nineteen the scanner keeps; the
    // dropped tail must still steer rounding through the sticky flag.
    for lit in [
        "0.10000000000000000001",
        "3.14159265358979323846264338327950288",
        "1.00000001490116119384765625",
        "0.000123456789012345678901234567890123",
        "123456789012345678901234567890e-35",
    ] {
        let reference = lit.parse::<f32>().unwrap();
        let got = parse_one_value(&format!("x={};", lit));
        if reference.fract() == 0.0 {
            assert_eq!(
                got,
                CfgValue::Long(reference as i32),
                "literal {}",
                lit
            );
        } else {
            assert_eq!(got, CfgValue::Float(reference.to_bits()), "literal {}", lit);
        }
    }
}

#[test]
fn assorted_literals_round_like_reference_parsing() {
    for lit in [
        "0", "-0", "0.0", "1", "-1", "1.5", "-1.5", "0.1", "2.5", "3.4028235e38",
        "3.4028236e38", "1e39", "-1e39", "1.17549435e-38", "1.1754944e-38", "8388608.5",
        "16777215.5", "33554430", "1e10", "6.02214076e23", "2.802597e-45",
    ] {
        let reference = lit.parse::<f32>().unwrap();
        let got = parse_one_value(&format!("x={};", lit));
        if reference.fract() == 0.0 {
            let expected = reference as i32;
            assert_eq!(got, CfgValue::Long(expected), "literal {}", lit);
        } else {
            assert_eq!(got, CfgValue::Float(reference.to_bits()), "literal {}", lit);
        }
    }
}

#[test]
fn multi_byte_entry_count_decodes() {
    // 130 entries: the count takes two bytes of the variable-length form.
    let mut b = Vec::new();
    push_u32(&mut b, 1348563456);
    push_u32(&mut b, 0);
    push_u32(&mut b, 8);
    push_u32(&mut b, 0);
    push_zt(&mut b, "");
    b.push(0x82);
    b.push(0x01);
    for _ in 0..130 {
        b.push(2);
        push_zt(&mut b, "E");
    }
    let cfg = Cfg::read_config(&b).expect("binary should decode");
    assert_eq!(cfg.entries.len(), 130);
    assert_eq!(cfg.entries[129], CfgEntry::Extern("E".to_string()));
}
