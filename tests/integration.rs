use fielder::{bitfield, layout_of, Field, Layout, Packed};

const FLAGS_ONE: &str = r#"
    /// From https://content.u-blox.com/sites/default/files/u-blox-M10-SPG-5.10_InterfaceDescription_UBX-21035062.pdf#%5B%7B%22num%22%3A1688%2C%22gen%22%3A0%7D%2C%7B%22name%22%3A%22XYZ%22%7D%2C59.527%2C719.337%2Cnull%5D
    struct FlagsOne: u8 {
        /// Valid fix (i.e within DOP & accuracy masks)
        GnssFixOk: 0;
        /// Differential corrections were applied
        DiffSoln: 1;

        /// Power saving mode is not active.
        PsmNotActive: 2..4 = 0;
        /// Enabled (an intermediate state before Acquisition state)
        PsmEnabled: 2..4 = 1;
        /// In Acquisition state
        PsmAcquisition: 2..4 = 2;
        /// In Tracking state
        PsmTracking: 2..4 = 3;
        /// In Optimized Tracking state
        PsmPowerOptimizedTracking: 2..4 = 4;
        /// In Inactive state
        PsmInactive: 2..4 = 5;

        /// Heading of vehicle is valid, only set if the receiver is in sensor fusion mode
        HeadVehValid: 5;

        /// No carrier phase range solution
        CarrSolnNone: 6..7 = 0;
        /// Carrier phase range solution with floating ambiguities
        CarrSolnFloating: 6..7 = 1;
        /// Carrier phase range solution with fixed ambiguities
        CarrSolnFixed: 6..7 = 2;
    }
"#;

fn field<'a>(layout: &'a Layout, name: &str) -> &'a Field {
    layout.field(name).unwrap()
}

#[test]
fn nav_pvt_flags_one() {
    let layout = layout_of(FLAGS_ONE).unwrap();
    let f = |name: &str| field(&layout, name);

    let one = Packed::from_bits(0b00000001);
    assert!(one.contains(f("GnssFixOk")));
    assert!(!one.contains(f("DiffSoln")));
    assert!(one.contains(f("PsmNotActive")));

    let two = Packed::from_bits(0b00001110);
    assert!(!two.contains(f("GnssFixOk")));
    assert!(two.contains(f("DiffSoln")));
    assert!(!two.contains(f("PsmEnabled")));
    assert!(two.contains(f("PsmTracking")));

    let three = Packed::from_bits(0)
        .set(f("GnssFixOk"))
        .set(f("DiffSoln"))
        .set(f("PsmInactive"))
        .set(f("CarrSolnNone"));
    assert_eq!(three.to_bits(), 0b00010111);
}

#[test]
fn nav_pvt_flags_one_generated() {
    let out = bitfield(FLAGS_ONE, false).unwrap();
    assert!(syn::parse_file(&out).is_ok(), "{out}");
    assert!(out.contains("struct FlagsOne(u8);"));
    assert!(out.contains("pub const GnssFixOk: FlagsOneField = FlagsOneField {\n        name: \"GnssFixOk\",\n        start_bit: 0,\n        end_bit: 0,\n        mask: 1,\n        value: 1,\n        is_counter: false,\n    };"));
    assert!(out.contains("pub const PsmTracking: FlagsOneField = FlagsOneField {\n        name: \"PsmTracking\",\n        start_bit: 2,\n        end_bit: 4,\n        mask: 28,\n        value: 12,"));
    assert!(out.contains("pub const PsmInactive: FlagsOneField = FlagsOneField {\n        name: \"PsmInactive\",\n        start_bit: 2,\n        end_bit: 4,\n        mask: 28,\n        value: 20,"));
    assert!(out.contains("pub const CarrSolnFixed: FlagsOneField = FlagsOneField {\n        name: \"CarrSolnFixed\",\n        start_bit: 6,\n        end_bit: 7,\n        mask: 192,\n        value: 128,"));
    assert!(out.contains("    /// In Inactive state\n    pub const PsmInactive"));
    assert!(out.contains("pub const fn set(&mut self, field: FlagsOneField) -> Self {"));
    assert!(out.contains("pub const fn unset(&mut self, field: FlagsOneField) -> Self {"));
    assert!(out.contains("pub const fn set_literal(&mut self, field: FlagsOneField, value: u8) -> Self {"));
}
