use candle_core::DType;
use candle_core::Device;
use candle_core::Tensor;
use candle_nn::Init;
use candle_nn::VarBuilder;
use candle_nn::VarMap;
use smolgpt::error::SmolError;
use smolgpt::quantize::decode_tensors;
use smolgpt::quantize::encode_sorted;
use smolgpt::quantize::encode_tensors;
use smolgpt::quantize::first_misfit;
use smolgpt::quantize::looks_quantized;
use smolgpt::quantize::read_u32;
use smolgpt::quantize::read_u64;
use smolgpt::quantize::read_u8;
use smolgpt::quantize::write_u32;
use smolgpt::quantize::write_u64;
use smolgpt::quantize::write_u8;
use smolgpt::quantize::FormatError;
use smolgpt::quantize::QuantizedTensor;

fn tensor(name: &str, shape: Vec<u64>, scale: f32, data: Vec<i8>) -> QuantizedTensor {
    QuantizedTensor { name: name.to_string(), shape, scale: scale.to_bits(), data }
}

fn sample() -> Vec<QuantizedTensor> {
    vec![
        tensor("weight_b", vec![5], 0.5, vec![1, -2, 0, 127, -128]),
        tensor("weight_a", vec![2, 3], 0.25, vec![1, 2, 3, -4, -5, -6]),
        tensor("große", vec![], 1.0, vec![]),
    ]
}

fn same(a: &QuantizedTensor, b: &QuantizedTensor) -> bool {
    a.name == b.name && a.shape == b.shape && a.scale == b.scale && a.data == b.data
}

#[test]
fn test_looks_quantized_false_for_non_quantized_file() {
    assert!(!looks_quantized(&b"not a quantized file at all".to_vec()));
}

#[test]
fn files_give_back_what_was_written() {
    let tensors = sample();
    let mut bytes = encode_tensors(&tensors);
    assert!(looks_quantized(&bytes));
    for trailing in [0, 3] {
        bytes.extend(vec![0xffu8; trailing]);
        let back = decode_tensors(&bytes).unwrap();
        assert_eq!(back.len(), 3);
        for (a, b) in tensors.iter().zip(back.iter()) {
            assert!(same(a, b));
        }
    }
}

#[test]
fn the_layout_is_little_endian() {
    let bytes = encode_tensors(&vec![tensor("ab", vec![2], 1.0, vec![5, -1])]);
    let mut want: Vec<u8> = b"SGQZ".to_vec();
    want.push(1);
    want.extend(1u32.to_le_bytes());
    want.extend(2u32.to_le_bytes());
    want.extend(b"ab");
    want.extend(1u32.to_le_bytes());
    want.extend(2u64.to_le_bytes());
    want.extend(1.0f32.to_le_bytes());
    want.extend(2u64.to_le_bytes());
    want.extend([5u8, 0xff]);
    assert_eq!(bytes, want);
}

#[test]
fn the_layout_does_not_depend_on_the_order() {
    let mut reversed = sample();
    reversed.reverse();
    let bytes = encode_sorted(sample());
    assert_eq!(bytes, encode_sorted(reversed));
    let names: Vec<String> =
        decode_tensors(&bytes).unwrap().into_iter().map(|t| t.name).collect();
    assert_eq!(names, vec!["große", "weight_a", "weight_b"]);
}

#[test]
fn truncated_files_are_refused() {
    let bytes = encode_tensors(&sample());
    for n in 0..bytes.len() {
        match decode_tensors(&bytes[..n].to_vec()) {
            Err(FormatError::UnexpectedEnd) => {}
            other => panic!("{n} bytes gave {other:?}"),
        }
    }
}

#[test]
fn other_files_are_refused() {
    match decode_tensors(&b"GGUF....".to_vec()) {
        Err(e) => match e.loading("m.bin") {
            SmolError::CustomError(m) => assert_eq!(
                m,
                "load_quantized_tensors: m.bin: bad magic (not a smolgpt quantized file)"
            ),
            other => panic!("{other:?}"),
        },
        Ok(_) => panic!("not a file of this format"),
    }
    let e = decode_tensors(&b"SG".to_vec()).unwrap_err();
    assert!(e.loading("x").text().contains("failed to fill whole buffer"));
}

#[test]
fn names_must_be_text() {
    let mut bytes = encode_tensors(&vec![tensor("ab", vec![], 1.0, vec![])]);
    bytes[13] = 0xff;
    let why = String::from_utf8(vec![0xff, b'b']).unwrap_err().to_string();
    match decode_tensors(&bytes) {
        Err(FormatError::InvalidName(m)) => assert_eq!(m, why),
        other => panic!("{other:?}"),
    }
}

#[test]
fn numbers_are_read_in_turn() {
    let mut out = Vec::new();
    write_u8(&mut out, 7);
    write_u32(&mut out, 0x0102_0304);
    write_u64(&mut out, u64::MAX - 1);
    assert_eq!(out.len(), 13);
    let mut pos = 0;
    assert_eq!(read_u8(&out, &mut pos), Some(7));
    assert_eq!(read_u32(&out, &mut pos), Some(0x0102_0304));
    assert_eq!(read_u64(&out, &mut pos), Some(u64::MAX - 1));
    assert_eq!(pos, 13);
    assert_eq!(read_u8(&out, &mut pos), None);
    assert_eq!(read_u32(&out, &mut pos), None);
    assert_eq!(read_u64(&out, &mut pos), None);
    assert_eq!(pos, 13);
}

fn quantize(values: &[f32]) -> (f32, Vec<i8>) {
    let max_abs = values.iter().fold(0f32, |acc, &v| acc.max(v.abs()));
    let scale = if max_abs > 0.0 { max_abs / 127.0 } else { 1.0 };
    (scale, values.iter().map(|&v| (v / scale).round().clamp(-127.0, 127.0) as i8).collect())
}

fn values_of(t: &Tensor) -> Vec<f32> {
    t.flatten_all().unwrap().to_vec1::<f32>().unwrap()
}

#[test]
fn test_save_and_load_quantized_var_map_round_trip() {
    let device = Device::Cpu;
    let var_map = VarMap::new();
    let vb = VarBuilder::from_varmap(&var_map, DType::F32, &device);
    let a = vb
        .get_with_hints((4, 3), "weight_a", Init::Randn { mean: 0.0, stdev: 1.0 })
        .unwrap();
    let b = vb.get_with_hints((5,), "weight_b", Init::Const(0.0)).unwrap();
    let b_values = Tensor::from_vec(vec![1.0f32, -2.0, 0.5, 3.25, -3.25], (5,), &device).unwrap();
    {
        let data = var_map.data().lock().unwrap();
        data.get("weight_b").unwrap().set(&b_values).unwrap();
    }

    let mut tensors = Vec::new();
    for (name, var) in var_map.data().lock().unwrap().iter() {
        let (scale, data) = quantize(&values_of(var.as_tensor()));
        let shape = var.as_tensor().dims().iter().map(|&d| d as u64).collect();
        tensors.push(tensor(name, shape, scale, data));
    }
    let bytes = encode_sorted(tensors);
    assert!(looks_quantized(&bytes), "saved file should start with our magic");

    let mut loaded_var_map = VarMap::new();
    let vb2 = VarBuilder::from_varmap(&loaded_var_map, DType::F32, &device);
    let _ = vb2.get_with_hints((4, 3), "weight_a", Init::Const(0.0)).unwrap();
    let _ = vb2.get_with_hints((5,), "weight_b", Init::Const(0.0)).unwrap();
    for t in decode_tensors(&bytes).unwrap() {
        let scale = f32::from_bits(t.scale);
        let values: Vec<f32> = t.data.iter().map(|&q| q as f32 * scale).collect();
        let shape: Vec<usize> = t.shape.iter().map(|&d| d as usize).collect();
        let rebuilt = Tensor::from_vec(values, shape, &device).unwrap();
        loaded_var_map.set_one(&t.name, &rebuilt).unwrap();
    }

    let orig_a = values_of(&a);
    let orig_b = values_of(&b);
    let data = loaded_var_map.data().lock().unwrap();
    let loaded_a = values_of(data.get("weight_a").unwrap().as_tensor());
    let loaded_b = values_of(data.get("weight_b").unwrap().as_tensor());
    for (o, l) in orig_a.iter().zip(loaded_a.iter()) {
        assert!((o - l).abs() < 0.05, "weight_a drifted too much: {o} vs {l}");
    }
    for (o, l) in orig_b.iter().zip(loaded_b.iter()) {
        assert!((o - l).abs() < 0.05, "weight_b drifted too much: {o} vs {l}");
    }
}

#[test]
fn elements_must_fit_the_dimensions() {
    let fitting = || {
        vec![
            tensor("scalar", vec![], 1.0, vec![4]),
            tensor("matrix", vec![2, 3], 1.0, vec![0; 6]),
            tensor("empty", vec![u64::MAX, u64::MAX, 0], 1.0, vec![]),
        ]
    };
    assert_eq!(first_misfit(&fitting()), None);
    for (shape, len) in [
        (vec![2, 3], 5),
        (vec![], 0),
        (vec![0], 1),
        (vec![u64::MAX, u64::MAX, u64::MAX], 1),
        (vec![7, 1], 8),
    ] {
        let mut tensors = fitting();
        tensors.insert(1, tensor("bad", shape, 1.0, vec![0; len]));
        tensors.push(tensor("bad", vec![9], 1.0, vec![]));
        assert_eq!(first_misfit(&tensors), Some(1));
    }
}
