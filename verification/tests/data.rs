use adamas::accum::Accumulator;
use adamas::data::{Bool, CharSet, DatumSpec, Enum, FixedPointRange, IntRange, SequenceLength, Sequencer};

/// Scale a number to fixed point with the given count of binary decimals,
/// truncating toward zero and clamping to the representable magnitude.
fn float2fixed(value: f64, decimals: u32) -> i64 {
    let abs_max_fixed = i64::MAX >> decimals;
    let two: f64 = 2.0;
    let mut value = (value * two.powi(decimals as i32)) as i64;
    if value < -abs_max_fixed {
        value = -abs_max_fixed;
    } else if value > abs_max_fixed {
        value = abs_max_fixed;
    }
    value
}

/// Recover the approximate number behind a fixed-point value.
fn fixed2float(value: i64, decimals: u32) -> f64 {
    let two: f64 = 2.0;
    (value as f64) / two.powi(decimals as i32)
}

#[test]
fn data_bool() {
    let b = Bool::new();
    assert_eq!(b.permutations(), 2);
    assert_eq!(b.encode(&false).unwrap(), 0);
    assert_eq!(b.encode(&true).unwrap(), 1);
    assert_eq!(b.decode(0).unwrap(), false);
    assert_eq!(b.decode(1).unwrap(), true);
    assert!(b.decode(2).is_err());
}

#[test]
fn int_range() {
    let r = IntRange::new(-10, 10);
    assert_eq!(r.permutations(), 21);
    // low values
    assert_eq!(r.encode(&-10).unwrap(), 0);
    assert_eq!(r.decode(0).unwrap(), -10);
    // mid values
    assert_eq!(r.encode(&0).unwrap(), 10);
    assert_eq!(r.decode(10).unwrap(), 0);
    // high values
    assert_eq!(r.encode(&10).unwrap(), 20);
    assert_eq!(r.decode(20).unwrap(), 10);
}

#[test]
fn int_range_errors() {
    let r = IntRange::new(-10, 10);
    assert!(r.encode(&-11).is_err());
    assert!(r.encode(&11).is_err());
    assert!(r.decode(21).is_err());
}

#[test]
fn int_range_full() {
    let r = IntRange::new_full();
    assert_eq!(r.permutations(), u64::MAX);
    assert_eq!(r.encode(&(i64::MIN + 1)).unwrap(), 0);
    assert_eq!(r.encode(&i64::MAX).unwrap(), u64::MAX - 1);
    assert_eq!(r.decode(0).unwrap(), i64::MIN + 1);
    assert_eq!(r.decode(u64::MAX - 1).unwrap(), i64::MAX);
    assert!(r.encode(&i64::MIN).is_err());
}

#[test]
fn fixed_point_range() {
    let r = FixedPointRange::new(float2fixed(-255.99, 2), float2fixed(255.99, 2), 2);
    assert_eq!(r.permutations(), 2047);
    // low values
    assert_eq!(r.encode(&float2fixed(-255.76, 2)).unwrap(), 0);
    assert_eq!(fixed2float(r.decode(0).unwrap(), 2), -255.75);
    // mid values
    assert_eq!(r.encode(&float2fixed(0.0, 2)).unwrap(), 1023);
    assert_eq!(fixed2float(r.decode(1023).unwrap(), 2), 0.0);
    assert_eq!(r.encode(&float2fixed(-0.25, 2)).unwrap(), 1022);
    assert_eq!(r.encode(&float2fixed(0.25, 2)).unwrap(), 1024);
    // high values
    assert_eq!(r.encode(&float2fixed(255.75, 2)).unwrap(), 2046);
    assert_eq!(fixed2float(r.decode(2046).unwrap(), 2), 255.75);
}

#[test]
fn fixed_point_range_errors() {
    let r = FixedPointRange::new(float2fixed(-255.99, 2), float2fixed(255.99, 2), 2);
    assert!(r.encode(&float2fixed(-256.5, 2)).is_err());
    assert!(r.encode(&float2fixed(256.5, 2)).is_err());
    assert!(r.decode(2047).is_err());
}

#[test]
fn charset() {
    let cs = CharSet::new("abcあいうえお123$正體字");
    assert_eq!(cs.permutations(), 15);
    assert_eq!(cs.encode(&'あ').unwrap(), 3);
    assert_eq!(cs.encode(&'1').unwrap(), 8);
    assert_eq!(cs.encode(&'字').unwrap(), 14);
    assert_eq!(cs.decode(0).unwrap(), 'a');
    assert_eq!(cs.decode(7).unwrap(), 'お');
    assert_eq!(cs.decode(14).unwrap(), '字');
    assert!(cs.encode(&'0').is_err());
    assert!(cs.decode(15).is_err());
}

#[test]
fn charset_builtin_alphabets() {
    let lower = CharSet::lowercase_letter();
    assert_eq!(lower.permutations(), 26);
    // every member character round-trips
    for (ii, c) in "abcdefghijklmnopqrstuvwxyz".chars().enumerate() {
        let code = lower.encode(&c).unwrap();
        assert_eq!(code, ii as u64);
        assert_eq!(lower.decode(code).unwrap(), c);
    }
    assert!(lower.encode(&'A').is_err());

    let upper = CharSet::uppercase_letter();
    assert_eq!(upper.permutations(), 26);
    assert_eq!(upper.encode(&'Z').unwrap(), 25);
    assert!(upper.encode(&'z').is_err());

    let lower_ascii = CharSet::lowercase_ascii();
    assert_eq!(lower_ascii.permutations(), 51);
    assert_eq!(lower_ascii.decode(lower_ascii.encode(&'?').unwrap()).unwrap(), '?');
    let upper_ascii = CharSet::uppercase_ascii();
    assert_eq!(upper_ascii.permutations(), 51);
    assert_eq!(upper_ascii.decode(upper_ascii.encode(&'"').unwrap()).unwrap(), '"');
}

#[test]
fn data_tenum() {
    let e = Enum::new(&["Banana", "Orange", "Apple"]);
    assert_eq!(e.permutations(), 3);
    assert_eq!(e.encode(&String::from("Banana")).unwrap(), 0);
    assert_eq!(e.encode(&String::from("Orange")).unwrap(), 1);
    assert_eq!(e.encode(&"Apple".to_string()).unwrap(), 2);
    assert!(e.encode(&"Mango".to_string()).is_err());
    assert_eq!(e.decode(0).unwrap(), "Banana");
    assert_eq!(e.decode(1).unwrap(), "Orange");
    assert_eq!(e.decode(2).unwrap(), "Apple");
    assert!(e.decode(3).is_err());
}

#[test]
fn seq_bool() {
    // Fixed length sequence
    let mut a = Accumulator::new();
    let spec = Bool::new();
    let seq = &[false, true, true, false, true];
    // Sequence as fixed
    let sequencer0 = Sequencer::new(&spec, SequenceLength::Fixed(5));
    sequencer0.compress(seq, &mut a);
    // Sequence as variable length
    let sequencer1 = Sequencer::new(&spec, SequenceLength::Variable(20));
    sequencer1.compress(seq, &mut a);
    // Decompress and compare
    let deseq = sequencer1.decompress(&mut a);
    assert_eq!(deseq.as_slice(), seq);
    let deseq = sequencer0.decompress(&mut a);
    assert_eq!(deseq.as_slice(), seq);
}

#[test]
fn seq_int_range() {
    let mut a = Accumulator::new();
    let seq: &[i64] = &[5, 10, -1, 3];
    // Sequence as variable
    let spec0 = IntRange::new(-1, 10);
    let sequencer0 = Sequencer::new(&spec0, SequenceLength::Variable(50));
    sequencer0.compress(seq, &mut a);
    // Sequence as fixed
    let spec1 = IntRange::new(-2, 20);
    let sequencer1 = Sequencer::new(&spec1, SequenceLength::Fixed(4));
    sequencer1.compress(seq, &mut a);
    // Decompress
    let deseq = sequencer1.decompress(&mut a);
    assert_eq!(deseq.as_slice(), seq);
    let deseq = sequencer0.decompress(&mut a);
    assert_eq!(deseq.as_slice(), seq);
}

#[test]
fn seq_fixed_point_range() {
    let mut a = Accumulator::new();
    let spec = FixedPointRange::new(float2fixed(-256.0, 3), float2fixed(256.0, 3), 3);
    // Sequence 0
    let seq0: &[f64] = &[-100.0, -255.875, 255.875, 0.0, 0.125, 123.625];
    let fixed0: Vec<i64> = seq0.iter().map(|v| float2fixed(*v, 3)).collect();
    let sequencer0 = Sequencer::new(&spec, SequenceLength::Fixed(6));
    sequencer0.compress(&fixed0, &mut a);
    // Sequence 1
    let seq1: &[f64] = &[0.0, 0.125, -255.875, 255.875];
    let fixed1: Vec<i64> = seq1.iter().map(|v| float2fixed(*v, 3)).collect();
    let sequencer1 = Sequencer::new(&spec, SequenceLength::Variable(100));
    sequencer1.compress(&fixed1, &mut a);
    // Decompress
    let deseq: Vec<f64> = sequencer1.decompress(&mut a).iter().map(|v| fixed2float(*v, 3)).collect();
    assert_eq!(deseq.as_slice(), seq1);
    let deseq: Vec<f64> = sequencer0.decompress(&mut a).iter().map(|v| fixed2float(*v, 3)).collect();
    assert_eq!(deseq.as_slice(), seq0);
}

#[test]
fn seq_charset_variable() {
    let mut a = Accumulator::new();
    let spec = CharSet::lowercase_letter();
    let word: Vec<char> = vec!['v', 'e', 'r', 'b', 'a', 't', 'i', 'm'];
    let sequencer = Sequencer::new(&spec, SequenceLength::Variable(16));
    sequencer.compress(&word, &mut a);
    let out = sequencer.decompress(&mut a);
    assert_eq!(out, word);
    assert_eq!(a.len(), 0);
}

#[test]
fn seq_variable_empty() {
    let mut a = Accumulator::new();
    a.add(99);
    let spec = Bool::new();
    let empty: &[bool] = &[];
    let sequencer = Sequencer::new(&spec, SequenceLength::Variable(8));
    sequencer.compress(empty, &mut a);
    let out = sequencer.decompress(&mut a);
    assert_eq!(out.len(), 0);
    // the terminator is consumed and the prior contents are intact
    assert_eq!(a.to_hex_str(), "0000000000000063");
}

#[test]
fn mixed_record_single_accumulator() {
    // several specifications chained into one accumulator, decoded in
    // reverse order
    let mut a = Accumulator::new();
    let flag = Bool::new();
    let digit = IntRange::new(0, 9);
    let letter = CharSet::lowercase_letter();

    a.mul(flag.permutations());
    a.add(flag.encode(&true).unwrap());
    a.mul(digit.permutations());
    a.add(digit.encode(&7).unwrap());
    a.mul(letter.permutations());
    a.add(letter.encode(&'q').unwrap());

    assert_eq!(letter.decode(a.div(letter.permutations())).unwrap(), 'q');
    assert_eq!(digit.decode(a.div(digit.permutations())).unwrap(), 7);
    assert_eq!(flag.decode(a.div(flag.permutations())).unwrap(), true);
    assert_eq!(a.len(), 0);
}
