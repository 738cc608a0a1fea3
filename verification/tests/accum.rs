use adamas::accum::{Accumulator, Digit};

#[test]
fn add_at_place() {
    // test some basic addition
    let mut a = Accumulator::new();
    a.add_at_place(3, 2);
    assert_eq!(a.to_hex_str(), "0000000000000003 0000000000000000 0000000000000000");
    a.add_at_place(2, 1);
    assert_eq!(a.to_hex_str(), "0000000000000003 0000000000000002 0000000000000000");
    a.add_at_place(1, 0);
    assert_eq!(a.to_hex_str(), "0000000000000003 0000000000000002 0000000000000001");
    a.add_at_place(Digit::MAX, 1);
    assert_eq!(a.to_hex_str(), "0000000000000004 0000000000000001 0000000000000001");
    // test that carry propigates
    let mut a = Accumulator::new();
    a.add_at_place(Digit::MAX, 0);
    a.add_at_place(Digit::MAX, 1);
    a.add_at_place(Digit::MAX, 2);
    assert_eq!(a.to_hex_str(), "ffffffffffffffff ffffffffffffffff ffffffffffffffff");
    a.add(1);
    assert_eq!(a.to_hex_str(), "0000000000000001 0000000000000000 0000000000000000 0000000000000000");
    a.add_at_place(Digit::MAX, 3);
    assert_eq!(a.to_hex_str(), "0000000000000001 0000000000000000 0000000000000000 0000000000000000 0000000000000000");
}

#[test]
fn add() {
    // test very basic addition and vector grows
    let mut a = Accumulator::new();
    a.add(2);
    a.add(4);
    assert_eq!(a.to_hex_str(), "0000000000000006");
    a.add(Digit::MAX);
    assert_eq!(a.to_hex_str(), "0000000000000001 0000000000000005");
    a.add(0xf0);
    assert_eq!(a.to_hex_str(), "0000000000000001 00000000000000f5");
}

#[test]
fn mul() {
    let mut a = Accumulator::new();
    a.add_at_place(0xF000000000000000, 0);
    a.add_at_place(0xF000000000000000, 1);
    a.mul(2);
    assert_eq!(a.to_hex_str(), "0000000000000001 e000000000000001 e000000000000000");

    let mut a = Accumulator::new();
    a.add_at_place(Digit::MAX, 2);
    a.add_at_place(Digit::MAX, 1);
    a.add_at_place(Digit::MAX, 0);
    a.mul(Digit::MAX);
    assert_eq!(a.to_hex_str(), "fffffffffffffffe ffffffffffffffff ffffffffffffffff 0000000000000001");
}

#[test]
fn div() {
    let mut a = Accumulator::new();
    a.add(0xff);
    let r = a.div(2);
    assert_eq!(r, 1);
    assert_eq!(a.to_hex_str(), "000000000000007f");
    // Use divides to encode values
    let mut a = Accumulator::new();
    let encode: [Digit; 4] = [Digit::MAX - 10000, Digit::MAX - 1000, Digit::MAX - 100, Digit::MAX - 10];
    let mut decode: [Digit; 4] = [0; 4];
    for ii in 0..encode.len() {
        a.mul(encode[ii] + 1);
        a.add(encode[ii]);
    }
    // test divide by 1
    let ahex = a.to_hex_str();
    a.div(1);
    assert_eq!(ahex, a.to_hex_str());
    for ii in (0..4).rev() {
        decode[ii] = a.div(encode[ii] + 1);
    }
    assert_eq!(encode, decode);
}

#[test]
fn all_three() {
    let mut a = Accumulator::new();
    a.add(Digit::MAX);
    a.mul(Digit::MAX);
    a.div(Digit::MAX);
    assert_eq!(a.to_hex_str(), "ffffffffffffffff");
}

#[test]
fn shift() {
    let mut a = Accumulator::new();
    a.add(0xa00000000000000b);
    a.shl(4);
    assert_eq!(a.to_hex_str(), "000000000000000a 00000000000000b0");
    a.shl(64);
    assert_eq!(a.to_hex_str(), "000000000000000a 00000000000000b0 0000000000000000");
    a.shr(60);
    assert_eq!(a.to_hex_str(), "00000000000000a0 0000000000000b00");
    let rem = a.shr(12);
    assert_eq!(a.to_hex_str(), "0a00000000000000");
    assert_eq!(rem, 0xb00);
    // Use shifts to encode values
    let mut a = Accumulator::new();
    let encode: [Digit; 4] = [10, 20, 50, 250];
    let mut decode: [Digit; 4] = [0; 4];
    for ii in 0..encode.len() {
        a.shl(8);
        a.add(encode[ii]);
    }
    for ii in (0..4).rev() {
        decode[ii] = a.shr(8);
    }
    assert_eq!(encode, decode);
}

#[test]
fn empty_accumulator() {
    // zero is an empty word sequence and renders as an empty string
    let mut a = Accumulator::new();
    assert_eq!(a.len(), 0);
    assert_eq!(a.to_hex_str(), "");
    // operations on zero keep it zero and trimmed
    a.mul(123);
    assert_eq!(a.len(), 0);
    let r = a.div(5);
    assert_eq!(r, 0);
    assert_eq!(a.len(), 0);
    a.shl(64);
    assert_eq!(a.len(), 0);
}

#[test]
fn mul_by_zero_clears() {
    let mut a = Accumulator::new();
    a.add_at_place(7, 3);
    a.mul(0);
    assert_eq!(a.len(), 0);
    assert_eq!(a.to_hex_str(), "");
}

#[test]
fn div_identity() {
    // a == (a / b) * b + a % b, rebuilt through the accumulator itself
    let mut a = Accumulator::new();
    a.add(Digit::MAX);
    a.mul(Digit::MAX - 2);
    a.add(12345);
    let before = a.to_hex_str();
    let rem = a.div(997);
    a.mul(997);
    a.add(rem);
    assert_eq!(a.to_hex_str(), before);
}

#[test]
fn shift_identity() {
    // shl then shr restores the value, and the shr returns the bits that
    // the shl put below the cut: zero
    let mut a = Accumulator::new();
    a.add(0xdeadbeef);
    a.mul(Digit::MAX);
    let before = a.to_hex_str();
    a.shl(37);
    let out = a.shr(37);
    assert_eq!(out, 0);
    assert_eq!(a.to_hex_str(), before);
    // and a shr alone returns exactly the low bits it drops
    let mut b = Accumulator::new();
    b.add(0xdeadbeef);
    let out = b.shr(16);
    assert_eq!(out, 0xbeef);
    assert_eq!(b.to_hex_str(), "000000000000dead");
}
