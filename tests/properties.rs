use fielder::traits::Bitfield as _;
use fielder::{bitfield, layout_of, parse_source, to_tokens, Bits, Bound, ErrorKind, Packed};

const COMPLEX: &str = "
    struct ComplexField: u8 {
        FirstFlag: 0;
        SomeField: 1..2 = 0;
        SecondField: 1..2 = 1;
        ThirdField: 1..2 = 2;
        FourthField: 1..2 = 3;
        CounterField: 3..7 = !0;
    }
";

const GNSS: &str = "
    struct FlagsOne: u8 {
        GnssFixOk: 0;
        DiffSoln: 1;
        PsmNotActive: 2..4 = 0;
        PsmInactive: 2..4 = 5;
        HeadVehValid: 5;
        CarrSolnNone: 6..7 = 0;
    }
";

const PSM: &str = "
    struct Psm: u16 {
        V0: 2..4 = 0;
        V1: 2..4 = 1;
        V2: 2..4 = 2;
        V3: 2..4 = 3;
        V4: 2..4 = 4;
        V5: 2..4 = 5;
    }
";

#[test]
fn mask_covers_exactly_the_range() {
    let l = layout_of("struct M: u128 { A: 2..4; B: 0..127; C: 127; D: 5..5 = 1; }").unwrap();
    let a = l.field("A").unwrap();
    assert_eq!(a.mask, 0b11100);
    assert_eq!(a.mask, ((1u128 << (4 - 2 + 1)) - 1) << 2);
    assert_eq!(a.mask.count_ones(), 3);
    let b = l.field("B").unwrap();
    assert_eq!(b.mask, u128::MAX);
    assert_eq!(b.mask.count_ones(), 128);
    let c = l.field("C").unwrap();
    assert_eq!(c.mask, 1u128 << 127);
    assert_eq!(c.mask.count_ones(), 1);
    let d = l.field("D").unwrap();
    assert_eq!(d.mask, 0b100000);
    assert_eq!(d.value, 0b100000);
}

#[test]
fn round_trip_of_raw_bits() {
    for r in [0u128, 1, 0xAB, u128::MAX, 1 << 100] {
        assert_eq!(Packed::from_bits(r).to_bits(), r);
        let p: Packed = <Packed as fielder::traits::Bitfield>::from_bits(r);
        assert_eq!(p.to_bits(), r);
    }
}

#[test]
fn set_then_contains() {
    let l = layout_of(COMPLEX).unwrap();
    for f in &l.fields {
        for r in [0u128, 0xFF, 0b1010_1010, 0b0101_0101] {
            let mut p = Packed::from_bits(r);
            let q = p.set(f);
            assert!(q.contains(f), "field {}", f.name);
            assert_eq!(p, q);
        }
    }
}

#[test]
fn set_variant_clears_siblings() {
    let l = layout_of(COMPLEX).unwrap();
    let p = Packed::from_bits(0).set(l.field("FourthField").unwrap()).set(l.field("SecondField").unwrap());
    assert_eq!(p.to_bits(), 0b010);
    assert!(p.contains(l.field("SecondField").unwrap()));
    assert!(!p.contains(l.field("FourthField").unwrap()));
}

#[test]
fn unset_clears_the_mask() {
    let l = layout_of(COMPLEX).unwrap();
    let f = l.field("FourthField").unwrap();
    let mut p = Packed::from_bits(0xFF);
    assert_eq!(p.unset(f).to_bits(), 0xFF & !f.mask);
    assert_eq!(p.to_bits(), 0b1111_1001);
    // A sibling whose value is zero is held afterwards.
    assert!(p.contains(l.field("SomeField").unwrap()));
}

#[test]
fn literal_round_trip() {
    let l = layout_of(COMPLEX).unwrap();
    let f = l.field("CounterField").unwrap();
    let mut p = Packed::from_bits(0b111);
    p.set_literal(f, 0b10110);
    assert_eq!(p.get_literal(f), 0b10110);
    assert_eq!(p.to_bits(), 0b10110_111);
    // A literal wider than the field is cut to its width.
    p.set_literal(f, 0b1_11001);
    assert_eq!(p.get_literal(f), 0b11001);
    assert_eq!(p.get_literal(f), 0b1_11001 & ((1 << 5) - 1));
    assert_eq!(p.to_bits() & 0b111, 0b111);
}

#[test]
fn overlapping_variants_are_exclusive() {
    let l = layout_of(PSM).unwrap();
    let p = Packed::from_bits(0b1_0000_0011 | (3 << 2));
    for f in &l.fields {
        let expected = f.name == "V3";
        assert_eq!(p.contains(f), expected, "field {}", f.name);
    }
}

#[test]
fn counter_literal_extraction() {
    let l = layout_of(COMPLEX).unwrap();
    let field = Packed::from_bits(0b01010_11_0);
    assert!(!field.contains(l.field("FirstFlag").unwrap()));
    assert!(field.contains(l.field("FourthField").unwrap()));
    assert!(!field.contains(l.field("SecondField").unwrap()));
    let counter = l.field("CounterField").unwrap();
    assert!(counter.is_counter);
    assert!(field.contains(counter));
    assert!(Packed::from_bits(0).contains(counter));
    assert_eq!(field.get_literal(counter), 0b01010);
    assert_eq!(field.get_literal(counter), 10);
}

#[test]
fn default_values() {
    let b = parse_source("struct D: u8 { One: 3; Wide: 4..6; Same: 7..7; }").unwrap();
    let l = layout_of("struct D: u8 { One: 3; Wide: 4..6; Same: 7..7; }").unwrap();
    assert_eq!(l.field("One").unwrap().value, 1 << 3);
    assert_eq!(l.field("Wide").unwrap().value, 0);
    assert_eq!(l.field("Same").unwrap().value, 1 << 7);
    assert!(!b.fields[0].valued && !b.fields[1].valued);
    assert!(!l.field("Wide").unwrap().is_counter);
}

#[test]
fn gnss_end_to_end() {
    let l = layout_of(GNSS).unwrap();
    let f = |n: &str| l.field(n).unwrap();
    let one = Packed::from_bits(0b00000001);
    assert!(one.contains(f("GnssFixOk")));
    assert!(!one.contains(f("DiffSoln")));
    assert!(one.contains(f("PsmNotActive")));
    let built = Packed::from_bits(0)
        .set(f("GnssFixOk"))
        .set(f("DiffSoln"))
        .set(f("PsmInactive"))
        .set(f("CarrSolnNone"));
    assert_eq!(built.to_bits(), 0b00010111);
}

#[test]
fn rejects_unsupported_backing_type() {
    let es = layout_of("struct A: i32 { X: 40; }").err().unwrap();
    assert_eq!(es.len(), 1);
    assert_eq!(es[0].kind, ErrorKind::UnsupportedBackingType);
    assert_eq!(es[0].pos, 10);
    assert!(bitfield("struct A: usize { }", false).is_err());
}

#[test]
fn rejects_range_order_and_out_of_range() {
    let src = "struct A: u8 { X: 3..1; Y: 8; Z: 0..8; W: 0..7; }";
    let es = layout_of(src).err().unwrap();
    assert_eq!(es.len(), 3);
    assert_eq!(es[0].kind, ErrorKind::RangeOrder);
    assert_eq!(es[0].pos, 18);
    assert_eq!(es[1].kind, ErrorKind::OutOfRange(Bound::Start));
    assert_eq!(es[1].pos, 27);
    assert_eq!(es[2].kind, ErrorKind::OutOfRange(Bound::End));
    assert_eq!(es[2].pos, 36);
    assert_ne!(es[0].message(), es[1].message());
    assert!(bitfield(src, false).is_err());
}

#[test]
fn rejects_malformed_syntax() {
    let cases: [(&str, usize); 10] = [
        ("struct X: u8 { A: 0 B: 1; }", 20),
        ("struct X: u8 { A: 0, B: 1; }", 19),
        ("X: u8 { }", 0),
        ("struct A u8 { }", 9),
        ("struct A: u8 { X 1; }", 17),
        ("struct A: u8 { X: a; }", 18),
        ("struct A: u8 { X: 1 }", 20),
        ("struct A: u8 { X: 1; ", 21),
        ("struct A: u8 { } extra", 17),
        ("struct A: u8 { X: 1..; }", 21),
    ];
    for (src, pos) in cases {
        let es = layout_of(src).err().unwrap();
        assert_eq!(es.len(), 1, "{src}");
        assert_eq!(es[0].kind, ErrorKind::Syntax, "{src}");
        assert_eq!(es[0].pos, pos, "{src}");
    }
    let es = layout_of("struct A: u8 { X: 0x; }").err().unwrap();
    assert_eq!(es[0].kind, ErrorKind::Syntax);
    let es = layout_of("struct A: u8 { X: 999999999999999999999999999999999999999999; }").err().unwrap();
    assert_eq!(es[0].pos, 18);
}

#[test]
fn reads_literals_comments_and_attributes() {
    let src = "#[derive(Default)] // a comment\npub(crate) struct L: u32 {\n  #[allow(dead_code)]\n  /// doc\n  H: 0x1_0..0b1_0010 = 0o7; // trailing\n}";
    let b = parse_source(src).unwrap();
    assert_eq!(b.name, "L");
    assert_eq!(b.ty.len(), 1);
    assert_eq!(b.attrs.len(), 1);
    assert_eq!(b.visibility.len(), 4);
    assert_eq!(b.fields.len(), 1);
    assert_eq!(b.fields[0].attrs.len(), 2);
    assert_eq!(b.fields[0].start_bit.value, 16);
    assert_eq!(b.fields[0].end_bit.value, 18);
    let l = layout_of(src).unwrap();
    assert_eq!(l.bits, 32);
    assert_eq!(l.fields[0].value, 7 << 16);
}

#[test]
fn formats_held_fields() {
    let l = layout_of(GNSS).unwrap();
    assert_eq!(l.format(Packed::from_bits(1)), "FlagsOne(GnssFixOk | PsmNotActive | CarrSolnNone)");
    let c = layout_of(COMPLEX).unwrap();
    assert_eq!(c.format(Packed::from_bits(0b01010_11_0)), "ComplexField(FourthField | CounterField(10))");
    let e = layout_of("struct E: u8 { A: 0; }").unwrap();
    assert_eq!(e.format(Packed::from_bits(0)), "E()");
}

#[test]
fn generates_parsable_source() {
    let out = bitfield(GNSS, false).unwrap();
    assert!(syn::parse_file(&out).is_ok(), "{out}");
    assert!(out.contains("struct FlagsOne(u8);"));
    assert!(out.contains("pub const PsmInactive: FlagsOneField = FlagsOneField {\n        name: \"PsmInactive\",\n        start_bit: 2,\n        end_bit: 4,\n        mask: 28,\n        value: 20,\n        is_counter: false,\n    };"));
    assert!(out.contains("pub const FIELDS: &'static [FlagsOneField] = &[Self::GnssFixOk, Self::DiffSoln, Self::PsmNotActive, Self::PsmInactive, Self::HeadVehValid, Self::CarrSolnNone, ];"));
    assert!(!out.contains("defmt"));
    let with_defmt = bitfield(COMPLEX, true).unwrap();
    assert!(syn::parse_file(&with_defmt).is_ok());
    assert!(with_defmt.contains("impl ::defmt::Format for ComplexField"));
    assert!(with_defmt.contains("mask: 248,\n        value: 248,\n        is_counter: true,"));
    let attrs = bitfield("/// Docs\n#[allow(clippy::identity_op)]\npub(crate) struct P: u64 { #[doc = \"x\"] A: 63; }", false).unwrap();
    assert!(syn::parse_file(&attrs).is_ok(), "{attrs}");
    assert!(attrs.contains("/// Docs\n#[allow(clippy::identity_op)]\npub(crate) struct P(u64);"));
    assert!(attrs.contains("    #[doc=\"x\"]\n    pub const A: PField"));
    assert!(attrs.contains("mask: 9223372036854775808,"));
}

#[test]
fn to_tokens_reports_validation_errors() {
    let b = parse_source("struct A: u8 { X: 9; }").unwrap();
    let es = to_tokens(b, false).err().unwrap();
    assert_eq!(es[0].kind, ErrorKind::OutOfRange(Bound::Start));
}

#[test]
fn backing_widths() {
    assert_eq!(<u8 as Bits>::BITS, 8);
    assert_eq!(<u16 as Bits>::BITS, 16);
    assert_eq!(<u32 as Bits>::BITS, 32);
    assert_eq!(<u64 as Bits>::BITS, 64);
    assert_eq!(<u128 as Bits>::BITS, 128);
    assert_eq!(fielder::layout::width_of("u16"), Some(16));
    assert_eq!(fielder::layout::width_of("u17"), None);
}

#[test]
fn folds_value_expressions() {
    let src = "struct V: u8 { A: 0..7 = 1 + 1; B: 0..7 = (1 << 2) | 1; C: 0..7 = !0 >> 4; D: 0..7 = 1 + 2 * 3; E: 0..7 = 2 * 3 - 1; F: 4..7 = 0x3 ^ 0b1; H: 0..7 = (7 & 12) << 1; }";
    let l = layout_of(src).unwrap();
    let v = |n: &str| l.field(n).unwrap().value;
    assert_eq!(v("A"), 2);
    assert_eq!(v("B"), 5);
    assert_eq!(v("C"), 0x0F);
    assert_eq!(v("D"), 7);
    assert_eq!(v("E"), 5);
    assert_eq!(v("F"), 2 << 4);
    assert_eq!(v("H"), 8);
    for f in &l.fields {
        assert!(!f.is_counter);
    }
    let b = parse_source(src).unwrap();
    assert!(b.fields[0].valued);
    assert_eq!(b.fields[0].value.tokens.len(), 3);
    let out = bitfield(src, false).unwrap();
    assert!(syn::parse_file(&out).is_ok(), "{out}");
    assert!(out.contains("value: 15,"));
}

#[test]
fn explicit_value_overrides_default() {
    let l = layout_of("struct O: u8 { One: 3 = 0; Wide: 4..6 = 5; }").unwrap();
    assert_eq!(l.field("One").unwrap().value, 0);
    assert_eq!(l.field("Wide").unwrap().value, 5 << 4);
}

#[test]
fn rejects_malformed_value_expression() {
    for (src, pos) in [("struct A: u8 { X: 0 = ; }", 22), ("struct A: u8 { X: 0 = {1}; }", 22), ("struct A: u8 { X: 0 = 1 }", 25)] {
        let es = layout_of(src).err().unwrap();
        assert_eq!(es.len(), 1, "{src}");
        assert_eq!(es[0].kind, ErrorKind::Syntax, "{src}");
        assert_eq!(es[0].pos, pos, "{src}");
    }
}

#[test]
fn reads_literal_suffixes_and_separators() {
    let l = layout_of("struct S: u16 { A: 3u8..0b1_01u32 = 0b0101_0110u16; B: 0x0_f = 1usize; }").unwrap();
    let a = l.field("A").unwrap();
    assert_eq!(a.start_bit, 3);
    assert_eq!(a.end_bit, 5);
    assert_eq!(a.value, (0b0101_0110 << 3) & a.mask);
    assert_eq!(l.field("B").unwrap().start_bit, 15);
    let es = layout_of("struct S: u8 { A: 1e5; }").err().unwrap();
    assert_eq!(es[0].kind, ErrorKind::Syntax);
}

#[test]
fn rejects_other_backing_types() {
    for src in ["struct A: core::primitive::u8 { X: 0; }", "struct A: Foo<u8> { X: 0; }", "struct A: [u8; 1] { X: 0; }"] {
        let es = layout_of(src).err().unwrap();
        assert_eq!(es.len(), 1, "{src}");
        assert_eq!(es[0].kind, ErrorKind::UnsupportedBackingType, "{src}");
        assert_eq!(es[0].pos, 10, "{src}");
    }
    let es = layout_of("struct A: { X: 0; }").err().unwrap();
    assert_eq!(es[0].kind, ErrorKind::Syntax);
}

#[test]
fn keeps_other_value_expressions_as_written() {
    let src = "struct K: u8 { A: 0 = MY_CONST; B: 1..3 = u8::MAX / 2; C: 4 = -1 as u8; D: 5..7 = 1 +; }";
    let b = parse_source(src).unwrap();
    assert!(b.fields.iter().all(|f| f.valued));
    let out = bitfield(src, false).unwrap();
    assert!(out.contains("        value: ((MY_CONST) << 0) & 1,\n"), "{out}");
    assert!(out.contains("        value: ((u8::MAX/2) << 1) & 14,\n"), "{out}");
    assert!(out.contains("        value: ((-1 as u8) << 4) & 16,\n"), "{out}");
    assert!(out.contains("        value: ((1+) << 5) & 224,\n"), "{out}");
    let es = layout_of(src).err().unwrap();
    assert_eq!(es.len(), 4);
    assert!(es.iter().all(|e| e.kind == ErrorKind::ValueNotConstant));
    assert_eq!(es[0].pos, 22);
    let ok = bitfield("struct K: u8 { A: 0 = MY_CONST; }", false).unwrap();
    assert!(syn::parse_file(&ok).is_ok(), "{ok}");
}

#[test]
fn rejects_values_that_overflow() {
    for (src, pos) in [
        ("struct A: u8 { X: 0..7 = 300; }", 25),
        ("struct A: u8 { X: 0..7 = 1 << 9; }", 25),
        ("struct A: u8 { X: 0..7 = 0 - 1; }", 25),
        ("struct A: u8 { X: 0..7 = 200 + 100; }", 25),
        ("struct A: u8 { X: 0..7 = 16 * 16; }", 25),
        ("struct A: u16 { X: 0..7 = 1 >> 16; }", 26),
    ] {
        let es = layout_of(src).err().unwrap();
        assert_eq!(es.len(), 1, "{src}");
        assert_eq!(es[0].kind, ErrorKind::ValueOverflow, "{src}");
        assert_eq!(es[0].pos, pos, "{src}");
        let es = bitfield(src, false).err().unwrap();
        assert_eq!(es[0].kind, ErrorKind::ValueOverflow, "{src}");
    }
    let l = layout_of("struct A: u16 { X: 0..15 = 300; Y: 0..15 = 255 + 1; Z: 0..15 = 1 << 15; }").unwrap();
    assert_eq!(l.field("X").unwrap().value, 300);
    assert_eq!(l.field("Y").unwrap().value, 256);
    assert_eq!(l.field("Z").unwrap().value, 1 << 15);
}
