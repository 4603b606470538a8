use lss_collector::nvml::{
    decode_nvml_value, memory_mib, memory_temp, nvml_struct_version, samples, NvmlFieldValue,
    NvmlMemory, NvmlMemoryV2, NvmlValue, ReadStep, NVML_CLOCK_SM, NVML_FI_DEV_MEMORY_TEMP,
    NVML_SUCCESS, NVML_VALUE_TYPE_DOUBLE, NVML_VALUE_TYPE_SIGNED_INT,
    NVML_VALUE_TYPE_SIGNED_LONG_LONG, NVML_VALUE_TYPE_UINT, NVML_VALUE_TYPE_ULONG,
    NVML_VALUE_TYPE_ULONGLONG, NVML_VALUE_TYPE_UNSIGNED_SHORT,
};

const NATIVE_LITTLE: bool = u16::from_ne_bytes([1, 0]) == 1;

#[test]
fn nvml_clock_sm_is_enum_one_not_graphics() {
    const NVML_CLOCK_GRAPHICS: u32 = 0;
    assert_eq!(NVML_CLOCK_SM, 1);
    assert_eq!(NVML_CLOCK_GRAPHICS, 0);
    assert_ne!(NVML_CLOCK_SM, NVML_CLOCK_GRAPHICS, "picking the wrong enum is invisible on our hardware");
}

#[test]
fn the_versioned_struct_layouts_match_what_nvml_expects() {
    assert_eq!(std::mem::size_of::<NvmlMemoryV2>(), 40, "nvmlMemory_v2_t is u32 + 4 x u64 with padding");
    assert_eq!(std::mem::size_of::<NvmlFieldValue>(), 40, "nvmlFieldValue_t layout changed - the union offset moves with it");
    // the version word NVML matches against: low 24 bits sizeof, top byte the version
    assert_eq!(nvml_struct_version(40, 2), 40 | (2 << 24));
    assert_eq!(nvml_struct_version(std::mem::size_of::<NvmlMemoryV2>(), 2), 0x0200_0028);
}

#[test]
fn nvml_value_type_discriminants_match_the_header() {
    assert_eq!(NVML_VALUE_TYPE_DOUBLE, 0);
    assert_eq!(NVML_VALUE_TYPE_UINT, 1);
    assert_eq!(NVML_VALUE_TYPE_ULONG, 2);
    assert_eq!(NVML_VALUE_TYPE_ULONGLONG, 3);
    assert_eq!(NVML_VALUE_TYPE_SIGNED_LONG_LONG, 4, "NOT signed int - an 8-byte value, not 4");
    assert_eq!(NVML_VALUE_TYPE_SIGNED_INT, 5);
    assert_eq!(NVML_VALUE_TYPE_UNSIGNED_SHORT, 6);
}

#[test]
fn decode_nvml_value_reads_the_full_width_for_each_type() {
    // past 2^31: a 4-byte read of the low bytes would wrap this, an 8-byte read must not
    let past_i32_max: i64 = 5_000_000_000;
    let mut b = [0u8; 8];
    b[..8].copy_from_slice(&past_i32_max.to_ne_bytes());
    assert_eq!(decode_nvml_value(NVML_VALUE_TYPE_SIGNED_LONG_LONG, b, NATIVE_LITTLE), Some(NvmlValue::Signed(5_000_000_000)));

    // a negative SIGNED_INT must stay negative, not be read as an unsigned width
    let mut b = [0u8; 8];
    b[..4].copy_from_slice(&(-12_345i32).to_ne_bytes());
    assert_eq!(decode_nvml_value(NVML_VALUE_TYPE_SIGNED_INT, b, NATIVE_LITTLE), Some(NvmlValue::Signed(-12_345)));

    // the max UNSIGNED_SHORT: a 1-byte-short read would drop the high byte and read 255
    let mut b = [0u8; 8];
    b[..2].copy_from_slice(&0xFFFFu16.to_ne_bytes());
    assert_eq!(decode_nvml_value(NVML_VALUE_TYPE_UNSIGNED_SHORT, b, NATIVE_LITTLE), Some(NvmlValue::Unsigned(65_535)));

    // an unknown discriminant is dropped, never guessed at
    assert_eq!(decode_nvml_value(99, [0u8; 8], NATIVE_LITTLE), None);
}

#[test]
fn every_width_is_read_from_either_end() {
    let le = 0x0102_0304_0506_0708u64.to_le_bytes();
    let be = 0x0102_0304_0506_0708u64.to_be_bytes();
    for (b, little) in [(le, true), (be, false)] {
        assert_eq!(decode_nvml_value(NVML_VALUE_TYPE_ULONG, b, little), Some(NvmlValue::Unsigned(0x0102_0304_0506_0708)));
        assert_eq!(decode_nvml_value(NVML_VALUE_TYPE_ULONGLONG, b, little), Some(NvmlValue::Unsigned(0x0102_0304_0506_0708)));
    }
    assert_eq!(decode_nvml_value(NVML_VALUE_TYPE_UINT, le, true), Some(NvmlValue::Unsigned(0x0506_0708)));
    assert_eq!(decode_nvml_value(NVML_VALUE_TYPE_UINT, be, false), Some(NvmlValue::Unsigned(0x0102_0304)));
    assert_eq!(decode_nvml_value(NVML_VALUE_TYPE_SIGNED_LONG_LONG, (-2i64).to_le_bytes(), true), Some(NvmlValue::Signed(-2)));
    assert_eq!(decode_nvml_value(NVML_VALUE_TYPE_DOUBLE, 61.5f64.to_le_bytes(), true), Some(NvmlValue::Bits(61.5f64.to_bits())));
}

#[test]
fn a_board_without_a_memory_sensor_has_no_memory_temperature() {
    let reply = NvmlFieldValue {
        field_id: NVML_FI_DEV_MEMORY_TEMP,
        scope_id: 0,
        timestamp: 0,
        latency_usec: 0,
        value_type: NVML_VALUE_TYPE_UINT,
        nvml_return: NVML_SUCCESS,
        value: 74u64.to_le_bytes(),
    };
    assert_eq!(memory_temp(&Some(reply), true), Some(NvmlValue::Unsigned(74)));
    assert_eq!(memory_temp(&Some(NvmlFieldValue { nvml_return: 3, ..reply }), true), None);
    assert_eq!(memory_temp(&Some(NvmlFieldValue { value_type: 99, ..reply }), true), None);
    assert_eq!(memory_temp(&None, true), None);
}

#[test]
fn used_memory_leaves_out_what_the_driver_keeps_where_that_is_known() {
    const MIB: u64 = 1_048_576;
    let v1 = NvmlMemory { total: 100 * MIB, free: 10 * MIB, used: 90 * MIB };
    let v2 = NvmlMemoryV2 { version: 2, total: 100 * MIB, reserved: 9 * MIB, free: 10 * MIB, used: 81 * MIB + MIB / 2 };
    assert_eq!(memory_mib(Some(v2), Some(v1)), (Some(82), Some(100)));
    assert_eq!(memory_mib(None, Some(v1)), (Some(90), Some(100)));
    assert_eq!(memory_mib(None, None), (None, None));
    assert_eq!(memory_mib(None, Some(NvmlMemory { total: u64::MAX, free: 0, used: MIB / 2 - 1 })), (Some(0), Some(17_592_186_044_416)));
}

#[test]
fn a_board_without_a_handle_is_skipped_and_a_changed_count_is_read_once_more() {
    let boards = |v: &[Option<u32>]| v.to_vec();
    match samples(0, Some(3), Some(3), boards(&[Some(10), None, Some(12)])) {
        ReadStep::Done(v) => assert_eq!(v, vec![10, 12]),
        _ => panic!("the others are read"),
    }
    assert!(matches!(samples(1, Some(1), Some(1), boards(&[None])), ReadStep::Done(v) if v.is_empty()));
    assert!(matches!(samples(0, Some(0), Some(0), boards(&[])), ReadStep::Done(v) if v.is_empty()));
    assert!(matches!(samples(0, Some(2), Some(1), boards(&[Some(1), None])), ReadStep::Again));
    assert!(matches!(samples(0, Some(1), Some(2), boards(&[Some(1)])), ReadStep::Again));
    assert!(matches!(samples(1, Some(2), Some(1), boards(&[Some(1), None])), ReadStep::GiveUp));
    assert!(matches!(samples(0, None, None, boards(&[])), ReadStep::GiveUp));
    assert!(matches!(samples(0, Some(1), None, boards(&[Some(1)])), ReadStep::GiveUp));
}
