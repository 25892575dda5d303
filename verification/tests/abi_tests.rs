//! The ABI conversion functions, on plain values.

use universal_wasm_loader::abi::{
    decode_result, default_wasm_val, encode_result_val, import_result, lift_import_args, lift_raw_result, lower_raw_args,
    lower_raw_arg, lower_scalar_arg, raw_fits, read_ret_area, read_str, wit_to_wasm_params,
    wit_to_wasm_results, AbiError, CoreType, RawVal, WasmVal,
};
use universal_wasm_loader::wit_parser::{parse_params, WitType};

#[test]
fn read_str_ok() {
    let mem = b"xxHello, World!yy".to_vec();
    assert_eq!(read_str(&mem, 2, 13), Ok("Hello, World!".to_string()));
    assert_eq!(read_str(&mem, 0, 0), Ok(String::new()));
    assert_eq!(read_str(&mem, 17, 0), Ok(String::new()));
}

#[test]
fn read_str_multibyte() {
    let mem = "añb€".as_bytes().to_vec();
    assert_eq!(read_str(&mem, 0, mem.len() as u32), Ok("añb€".to_string()));
    assert_eq!(read_str(&mem, 1, 2), Ok("ñ".to_string()));
}

#[test]
fn read_str_out_of_bounds() {
    let mem = vec![b'a'; 8];
    assert_eq!(read_str(&mem, 4, 5), Err(AbiError::StringOutOfBounds(4, 5)));
    assert_eq!(read_str(&mem, 9, 0), Err(AbiError::StringOutOfBounds(9, 0)));
    assert_eq!(
        read_str(&mem, u32::MAX, 2),
        Err(AbiError::StringOutOfBounds(u32::MAX, 2))
    );
}

#[test]
fn read_str_invalid_utf8() {
    let mem = vec![b'a', 0xff, b'b'];
    assert_eq!(read_str(&mem, 0, 3), Err(AbiError::InvalidUtf8));
    // Cutting a multi-byte character in half is not UTF-8 either.
    let mem = "ñ".as_bytes().to_vec();
    assert_eq!(read_str(&mem, 0, 1), Err(AbiError::InvalidUtf8));
}

#[test]
fn core_param_types() {
    let ps = parse_params("s: string, b: bool, i: s32, l: s64, f: f32, d: f64");
    assert_eq!(
        wit_to_wasm_params(&ps),
        vec![
            CoreType::I32,
            CoreType::I32,
            CoreType::I32,
            CoreType::I32,
            CoreType::I64,
            CoreType::F32,
            CoreType::F64
        ]
    );
    assert!(wit_to_wasm_params(&[]).is_empty());
}

#[test]
fn core_result_types() {
    assert!(wit_to_wasm_results(&None).is_empty());
    assert!(wit_to_wasm_results(&Some(WitType::Str)).is_empty());
    assert_eq!(wit_to_wasm_results(&Some(WitType::Bool)), vec![CoreType::I32]);
    assert_eq!(wit_to_wasm_results(&Some(WitType::S32)), vec![CoreType::I32]);
    assert_eq!(wit_to_wasm_results(&Some(WitType::S64)), vec![CoreType::I64]);
    assert_eq!(wit_to_wasm_results(&Some(WitType::F32)), vec![CoreType::F32]);
    assert_eq!(wit_to_wasm_results(&Some(WitType::F64)), vec![CoreType::F64]);
}

#[test]
fn defaults_are_zero_of_type() {
    assert_eq!(default_wasm_val(&Some(WitType::F32)), WasmVal::F32(0));
    assert_eq!(default_wasm_val(&Some(WitType::F64)), WasmVal::F64(0));
    assert_eq!(default_wasm_val(&Some(WitType::S64)), WasmVal::I64(0));
    assert_eq!(default_wasm_val(&Some(WitType::Bool)), WasmVal::Bool(false));
    assert_eq!(default_wasm_val(&Some(WitType::Str)), WasmVal::Str(String::new()));
    assert_eq!(default_wasm_val(&Some(WitType::S32)), WasmVal::I32(0));
    assert_eq!(default_wasm_val(&None), WasmVal::I32(0));
}

#[test]
fn encode_host_results() {
    let b = Some(WitType::Bool);
    assert_eq!(encode_result_val(&b, &WasmVal::Bool(true)), RawVal::I32(1));
    assert_eq!(encode_result_val(&b, &WasmVal::Bool(false)), RawVal::I32(0));
    assert_eq!(encode_result_val(&b, &WasmVal::I32(7)), RawVal::I32(7));
    let bits = 12.0f64.to_bits();
    assert_eq!(encode_result_val(&Some(WitType::F64), &WasmVal::F64(bits)), RawVal::F64(bits));
    let fbits = 1.5f32.to_bits();
    assert_eq!(encode_result_val(&Some(WitType::F32), &WasmVal::F32(fbits)), RawVal::F32(fbits));
    assert_eq!(encode_result_val(&Some(WitType::S64), &WasmVal::I64(-3)), RawVal::I64(-3));
    assert_eq!(encode_result_val(&Some(WitType::S32), &WasmVal::I32(17)), RawVal::I32(17));
    // A mismatched host value falls back by its own shape, else to `0`.
    assert_eq!(encode_result_val(&Some(WitType::S32), &WasmVal::F64(bits)), RawVal::F64(bits));
    assert_eq!(encode_result_val(&Some(WitType::S32), &WasmVal::Bool(true)), RawVal::I32(0));
    assert_eq!(encode_result_val(&None, &WasmVal::Void), RawVal::I32(0));
    assert_eq!(
        encode_result_val(&Some(WitType::Str), &WasmVal::Str("x".to_string())),
        RawVal::I32(0)
    );
}

#[test]
fn raw_fits_checks_types_and_count() {
    let ts = [CoreType::I32, CoreType::F64];
    assert!(raw_fits(&ts, &[RawVal::I32(1), RawVal::F64(0)]));
    assert!(!raw_fits(&ts, &[RawVal::I32(1)]));
    assert!(!raw_fits(&ts, &[RawVal::F64(0), RawVal::I32(1)]));
    assert!(!raw_fits(&ts, &[RawVal::I32(1), RawVal::Other]));
    assert!(raw_fits(&[], &[]));
}

#[test]
fn lift_scalars() {
    let ps = parse_params("a: f64, b: s32, c: bool, d: bool, e: s64, f: f32");
    let raw = [
        RawVal::F64(3.0f64.to_bits()),
        RawVal::I32(-4),
        RawVal::I32(2),
        RawVal::I32(0),
        RawVal::I64(9),
        RawVal::F32(0.5f32.to_bits()),
    ];
    assert!(raw_fits(&wit_to_wasm_params(&ps), &raw));
    assert_eq!(
        lift_import_args(&ps, &raw, None),
        Ok(vec![
            WasmVal::F64(3.0f64.to_bits()),
            WasmVal::I32(-4),
            WasmVal::Bool(true),
            WasmVal::Bool(false),
            WasmVal::I64(9),
            WasmVal::F32(0.5f32.to_bits()),
        ])
    );
}

#[test]
fn lift_strings_from_memory() {
    let ps = parse_params("name: string, n: s32");
    let mem = b"....Ada.".to_vec();
    let raw = [RawVal::I32(4), RawVal::I32(3), RawVal::I32(5)];
    assert_eq!(
        lift_import_args(&ps, &raw, Some(&mem)),
        Ok(vec![WasmVal::Str("Ada".to_string()), WasmVal::I32(5)])
    );
}

#[test]
fn lift_string_errors() {
    let ps = parse_params("name: string");
    let raw = [RawVal::I32(4), RawVal::I32(3)];
    assert_eq!(lift_import_args(&ps, &raw, None), Err(AbiError::NoMemoryExport));
    let mem = vec![0u8; 5];
    assert_eq!(
        lift_import_args(&ps, &raw, Some(&mem)),
        Err(AbiError::StringOutOfBounds(4, 3))
    );
    // A negative pointer is read as its unsigned bit pattern.
    let raw = [RawVal::I32(-1), RawVal::I32(1)];
    assert_eq!(
        lift_import_args(&ps, &raw, Some(&mem)),
        Err(AbiError::StringOutOfBounds(u32::MAX, 1))
    );
    let mem = vec![0xc3u8];
    let raw = [RawVal::I32(0), RawVal::I32(1)];
    assert_eq!(lift_import_args(&ps, &raw, Some(&mem)), Err(AbiError::InvalidUtf8));
}

#[test]
fn decode_results() {
    assert_eq!(decode_result(&None, &[]), Ok(WasmVal::Void));
    assert_eq!(decode_result(&None, &[RawVal::I32(3)]), Ok(WasmVal::Void));
    assert_eq!(decode_result(&Some(WitType::S32), &[RawVal::I32(15)]), Ok(WasmVal::I32(15)));
    assert_eq!(decode_result(&Some(WitType::S64), &[RawVal::I64(-2)]), Ok(WasmVal::I64(-2)));
    assert_eq!(decode_result(&Some(WitType::Bool), &[RawVal::I32(5)]), Ok(WasmVal::Bool(true)));
    assert_eq!(decode_result(&Some(WitType::Bool), &[RawVal::I32(0)]), Ok(WasmVal::Bool(false)));
    let bits = 2.5f64.to_bits();
    assert_eq!(decode_result(&Some(WitType::F64), &[RawVal::F64(bits)]), Ok(WasmVal::F64(bits)));
    assert_eq!(decode_result(&Some(WitType::F32), &[RawVal::F32(7)]), Ok(WasmVal::F32(7)));
}

#[test]
fn decode_result_mismatch() {
    assert_eq!(decode_result(&Some(WitType::S32), &[]), Err(AbiError::ResultTypeMismatch));
    assert_eq!(
        decode_result(&Some(WitType::S32), &[RawVal::I64(1)]),
        Err(AbiError::ResultTypeMismatch)
    );
    assert_eq!(
        decode_result(&Some(WitType::F64), &[RawVal::F32(1)]),
        Err(AbiError::ResultTypeMismatch)
    );
}

#[test]
fn lower_scalars() {
    assert_eq!(lower_scalar_arg(WitType::S32, &WasmVal::I32(5)), Ok(RawVal::I32(5)));
    assert_eq!(lower_scalar_arg(WitType::S64, &WasmVal::I64(5)), Ok(RawVal::I64(5)));
    assert_eq!(lower_scalar_arg(WitType::F32, &WasmVal::F32(5)), Ok(RawVal::F32(5)));
    assert_eq!(lower_scalar_arg(WitType::F64, &WasmVal::F64(5)), Ok(RawVal::F64(5)));
    assert_eq!(lower_scalar_arg(WitType::Bool, &WasmVal::Bool(true)), Ok(RawVal::I32(1)));
    assert_eq!(lower_scalar_arg(WitType::Bool, &WasmVal::Bool(false)), Ok(RawVal::I32(0)));
    // Anything but `true` is `0` for a bool parameter.
    assert_eq!(lower_scalar_arg(WitType::Bool, &WasmVal::I32(1)), Ok(RawVal::I32(0)));
}

#[test]
fn lower_scalar_mismatch() {
    assert_eq!(
        lower_scalar_arg(WitType::S32, &WasmVal::I64(5)),
        Err(AbiError::ArgTypeMismatch(WitType::S32))
    );
    assert_eq!(
        lower_scalar_arg(WitType::F64, &WasmVal::Str("1".to_string())),
        Err(AbiError::ArgTypeMismatch(WitType::F64))
    );
    assert_eq!(
        lower_scalar_arg(WitType::Str, &WasmVal::Str("1".to_string())),
        Err(AbiError::ArgTypeMismatch(WitType::Str))
    );
}

#[test]
fn scalar_round_trip() {
    // What lowering an argument gives, decoding gives back.
    let cases = [
        (WitType::S32, WasmVal::I32(-9)),
        (WitType::S64, WasmVal::I64(1 << 40)),
        (WitType::F32, WasmVal::F32(3.25f32.to_bits())),
        (WitType::F64, WasmVal::F64(6.5f64.to_bits())),
        (WitType::Bool, WasmVal::Bool(true)),
        (WitType::Bool, WasmVal::Bool(false)),
    ];
    for (t, v) in cases {
        let raw = lower_scalar_arg(t, &v).unwrap();
        assert_eq!(decode_result(&Some(t), &[raw]), Ok(v));
    }
}

#[test]
fn raw_args_and_results() {
    assert_eq!(lower_raw_arg(&WasmVal::I32(1)), Ok(RawVal::I32(1)));
    assert_eq!(lower_raw_arg(&WasmVal::I64(2)), Ok(RawVal::I64(2)));
    assert_eq!(lower_raw_arg(&WasmVal::F32(3)), Ok(RawVal::F32(3)));
    assert_eq!(lower_raw_arg(&WasmVal::F64(4)), Ok(RawVal::F64(4)));
    assert_eq!(lower_raw_arg(&WasmVal::Bool(true)), Ok(RawVal::I32(1)));
    assert_eq!(lower_raw_arg(&WasmVal::Bool(false)), Ok(RawVal::I32(0)));
    assert_eq!(lower_raw_arg(&WasmVal::Str("s".to_string())), Err(AbiError::StringsNeedWit));
    assert_eq!(lower_raw_arg(&WasmVal::Void), Err(AbiError::StringsNeedWit));
    assert_eq!(lift_raw_result(RawVal::I32(8)), WasmVal::I32(8));
    assert_eq!(lift_raw_result(RawVal::I64(8)), WasmVal::I64(8));
    assert_eq!(lift_raw_result(RawVal::F32(8)), WasmVal::F32(8));
    assert_eq!(lift_raw_result(RawVal::F64(8)), WasmVal::F64(8));
    assert_eq!(lift_raw_result(RawVal::Other), WasmVal::Void);
}

#[test]
fn ret_area_words() {
    let mut mem = vec![0u8; 16];
    mem[4..8].copy_from_slice(&0x0102_0304u32.to_le_bytes());
    mem[8..12].copy_from_slice(&5u32.to_le_bytes());
    assert_eq!(read_ret_area(&mem, 4), Ok((0x0102_0304, 5)));
    assert_eq!(read_ret_area(&mem, 8), Ok((5, 0)));
    assert_eq!(read_ret_area(&mem, 9), Err(AbiError::ReturnAreaOutOfBounds(9)));
    assert_eq!(read_ret_area(&mem, -4), Err(AbiError::ReturnAreaOutOfBounds(-4)));
    assert_eq!(read_ret_area(&[], 0), Err(AbiError::ReturnAreaOutOfBounds(0)));
}

#[test]
fn accessors() {
    assert_eq!(WasmVal::I32(3).as_i32(), Some(3));
    assert_eq!(WasmVal::I64(3).as_i32(), None);
    assert_eq!(WasmVal::I64(3).as_i64(), Some(3));
    assert_eq!(WasmVal::F32(3).as_f32(), Some(3));
    assert_eq!(WasmVal::F64(3).as_f64(), Some(3));
    assert_eq!(WasmVal::I32(3).as_f64(), None);
    assert_eq!(WasmVal::Bool(true).as_bool(), Some(true));
    assert_eq!(WasmVal::I32(1).as_bool(), None);
    assert_eq!(WasmVal::Str("hi".to_string()).as_str(), Some("hi"));
    assert_eq!(WasmVal::Void.as_str(), None);
}

#[test]
fn written_string_reads_back() {
    for text in ["", "plain", "añb€", "🦀 crab"] {
        let mut mem = vec![0xffu8; 64];
        let at = 7usize;
        mem[at..at + text.len()].copy_from_slice(text.as_bytes());
        assert_eq!(read_str(&mem, at as u32, text.len() as u32), Ok(text.to_string()));
    }
}

#[test]
fn host_result_round_trip() {
    let cases = [
        (WitType::S32, WasmVal::I32(i32::MIN)),
        (WitType::S64, WasmVal::I64(i64::MAX)),
        (WitType::F32, WasmVal::F32(f32::NAN.to_bits())),
        (WitType::F64, WasmVal::F64((-0.0f64).to_bits())),
        (WitType::Bool, WasmVal::Bool(true)),
        (WitType::Bool, WasmVal::Bool(false)),
    ];
    for (t, v) in cases {
        let raw = encode_result_val(&Some(t), &v);
        assert_eq!(decode_result(&Some(t), &[raw]), Ok(v));
    }
}

#[test]
fn default_results_have_declared_core_type() {
    for t in [WitType::S32, WitType::S64, WitType::F32, WitType::F64, WitType::Bool] {
        let raw = encode_result_val(&Some(t), &default_wasm_val(&Some(t)));
        let types = wit_to_wasm_results(&Some(t));
        assert_eq!(types.len(), 1);
        assert!(raw_fits(&types, &[raw]));
    }
}

#[test]
fn scalar_args_lift_back() {
    let ps = parse_params("a: s32, b: s64, c: f32, d: f64, e: bool");
    let vals = vec![
        WasmVal::I32(-1),
        WasmVal::I64(5),
        WasmVal::F32(2.0f32.to_bits()),
        WasmVal::F64(8.0f64.to_bits()),
        WasmVal::Bool(true),
    ];
    let raw: Vec<RawVal> = ps
        .iter()
        .zip(vals.iter())
        .map(|(p, v)| lower_scalar_arg(p.ty, v).unwrap())
        .collect();
    assert!(raw_fits(&wit_to_wasm_params(&ps), &raw));
    assert_eq!(lift_import_args(&ps, &raw, None), Ok(vals));
}

#[test]
fn import_results() {
    // With a callback, its value is encoded for the declared result.
    let bits = 12.0f64.to_bits();
    assert_eq!(import_result(&Some(WitType::F64), Some(WasmVal::F64(bits))), RawVal::F64(bits));
    assert_eq!(import_result(&Some(WitType::S32), Some(WasmVal::I32(17))), RawVal::I32(17));
    assert_eq!(import_result(&Some(WitType::Bool), Some(WasmVal::Bool(true))), RawVal::I32(1));
    // Without one, the zero of the result type.
    assert_eq!(import_result(&Some(WitType::F64), None), RawVal::F64(0));
    assert_eq!(import_result(&Some(WitType::F32), None), RawVal::F32(0));
    assert_eq!(import_result(&Some(WitType::S64), None), RawVal::I64(0));
    assert_eq!(import_result(&Some(WitType::Bool), None), RawVal::I32(0));
    assert_eq!(import_result(&None, None), RawVal::I32(0));
}

#[test]
fn placed_strings_lift_back() {
    // Two strings and a number, as an export call passes them once the
    // strings sit in memory at their pointers.
    let ps = parse_params("a: string, n: s32, b: string");
    let mut mem = vec![0u8; 32];
    mem[3..6].copy_from_slice(b"abc");
    let e = "é€".as_bytes();
    mem[20..20 + e.len()].copy_from_slice(e);
    let raw = [
        RawVal::I32(3),
        RawVal::I32(3),
        RawVal::I32(-7),
        RawVal::I32(20),
        RawVal::I32(e.len() as i32),
    ];
    assert!(raw_fits(&wit_to_wasm_params(&ps), &raw));
    assert_eq!(
        lift_import_args(&ps, &raw, Some(&mem)),
        Ok(vec![s("abc"), WasmVal::I32(-7), s("é€")])
    );
}

fn s(x: &str) -> WasmVal {
    WasmVal::Str(x.to_string())
}

#[test]
fn raw_args_lower_in_order() {
    let args = [
        WasmVal::I32(-3),
        WasmVal::Bool(true),
        WasmVal::I64(7),
        WasmVal::F32(1.5f32.to_bits()),
        WasmVal::F64(2.5f64.to_bits()),
        WasmVal::Bool(false),
    ];
    assert_eq!(
        lower_raw_args(&args),
        Ok(vec![
            RawVal::I32(-3),
            RawVal::I32(1),
            RawVal::I64(7),
            RawVal::F32(1.5f32.to_bits()),
            RawVal::F64(2.5f64.to_bits()),
            RawVal::I32(0),
        ])
    );
    assert_eq!(lower_raw_args(&[]), Ok(vec![]));
    assert_eq!(
        lower_raw_args(&[WasmVal::I32(1), s("x"), WasmVal::I32(2)]),
        Err(AbiError::StringsNeedWit)
    );
    assert_eq!(lower_raw_args(&[WasmVal::Void]), Err(AbiError::StringsNeedWit));
}
