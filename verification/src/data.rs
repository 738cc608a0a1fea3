//! Field specifications and the sequence layer.
//!
//! A `DatumSpec` maps each value of a bounded domain to an integer code below
//! its permutation count, and back; every implementation proves that decoding
//! inverts encoding. A `Sequencer` packs an ordered list of such values into
//! an `Accumulator` as one mixed-radix integer, and unpacks it again.

use core::marker::PhantomData;

use vstd::prelude::*;

use crate::accum::{Accumulator, Digit};

verus! {

/// The codes of a list of values under one field specification.
pub open spec fn codes_of<T: DeepView, S: DatumSpec<T>>(s: S, vals: Seq<T::V>) -> Seq<u64> {
    Seq::new(vals.len(), |i: int| s.encode_of(vals[i]))
}

/// The values behind a list of codes under one field specification.
pub open spec fn decoded_of<T: DeepView, S: DatumSpec<T>>(s: S, codes: Seq<u64>) -> Seq<T::V> {
    Seq::new(codes.len(), |i: int| s.decode_of(codes[i]))
}

/// Each code moved up by one, freeing code zero for the terminator of a
/// variable-length sequence.
pub open spec fn shifted_codes(codes: Seq<u64>) -> Seq<u64> {
    Seq::new(codes.len(), |i: int| (codes[i] + 1) as u64)
}

/// Horner packing of mixed-radix digits on top of what an accumulator
/// already holds: each code in turn becomes the new least significant digit,
/// so the first code ends up most significant.
pub open spec fn pack(init: nat, radix: nat, codes: Seq<u64>) -> nat
    decreases codes.len(),
{
    if codes.len() == 0 {
        init
    } else {
        (pack(init, radix, codes.drop_last()) * radix + codes.last()) as nat
    }
}

/// The digits that a fixed count of divisions pulls off a packed number,
/// rebuilt in packing order: each division yields the least significant
/// digit, which belongs at the end of the list.
pub open spec fn unpack_fixed(v: nat, radix: nat, count: nat) -> Seq<u64>
    decreases count,
{
    if count == 0 {
        Seq::empty()
    } else {
        unpack_fixed(v / radix, radix, (count - 1) as nat).push((v % radix) as u64)
    }
}

/// What is left of a packed number after a fixed count of divisions.
pub open spec fn unpack_fixed_rest(v: nat, radix: nat, count: nat) -> nat
    decreases count,
{
    if count == 0 {
        v
    } else {
        unpack_fixed_rest(v / radix, radix, (count - 1) as nat)
    }
}

/// The shifted digits that divisions pull off a variable-length packed
/// number before the zero terminator or the length cap stops them, rebuilt
/// in packing order, each lowered back by one.
pub open spec fn unpack_variable(v: nat, radix: nat, max_count: nat) -> Seq<u64>
    decreases max_count,
{
    if max_count == 0 {
        Seq::empty()
    } else if v % radix == 0 {
        Seq::empty()
    } else {
        unpack_variable(v / radix, radix, (max_count - 1) as nat).push(((v % radix) - 1) as u64)
    }
}

/// What is left of a variable-length packed number after its divisions,
/// the consumed terminator included.
pub open spec fn unpack_variable_rest(v: nat, radix: nat, max_count: nat) -> nat
    decreases max_count,
{
    if max_count == 0 {
        v
    } else if v % radix == 0 {
        v / radix
    } else {
        unpack_variable_rest(v / radix, radix, (max_count - 1) as nat)
    }
}

/// Trait used to define a piece of data that can be compressed to a small
/// binary representation.
pub trait DatumSpec<T: DeepView> {
    /// The implementation's construction invariant.
    spec fn wf(&self) -> bool;

    /// How many distinct codes the domain uses.
    spec fn spec_permutations(&self) -> u64;

    /// Whether a value lies in the representable domain.
    spec fn in_domain(&self, v: T::V) -> bool;

    /// The code of a value of the domain.
    spec fn encode_of(&self, v: T::V) -> u64;

    /// The value behind a code below `spec_permutations()`.
    spec fn decode_of(&self, c: u64) -> T::V;

    /// The number of distinct representable codes; always at least one.
    fn permutations(&self) -> (r: Digit)
        requires
            self.wf(),
        ensures
            r == self.spec_permutations(),
            r >= 1,
    ;

    /// Map a value to its code. Exactly the values of the domain encode;
    /// anything else is refused as a domain error, never clamped.
    fn encode(&self, input: &T) -> (r: Result<Digit, &'static str>)
        requires
            self.wf(),
        ensures
            r is Ok <==> self.in_domain(input.deep_view()),
            r matches Ok(c) ==> c == self.encode_of(input.deep_view()) && c
                < self.spec_permutations(),
    ;

    /// Map a code back to its value. Exactly the codes below
    /// `permutations()` decode; anything else is a domain error.
    fn decode(&self, input: Digit) -> (r: Result<T, &'static str>)
        requires
            self.wf(),
        ensures
            r is Ok <==> input < self.spec_permutations(),
            r matches Ok(v) ==> v.deep_view() == self.decode_of(input) && self.in_domain(
                v.deep_view(),
            ),
    ;

    /// Decoding inverts encoding on every value of the domain.
    proof fn lemma_round_trip(&self, v: T::V)
        requires
            self.wf(),
            self.in_domain(v),
        ensures
            self.encode_of(v) < self.spec_permutations(),
            self.decode_of(self.encode_of(v)) == v,
    ;

    /// A well-formed specification always has at least one code.
    proof fn lemma_permutations_pos(&self)
        requires
            self.wf(),
        ensures
            self.spec_permutations() >= 1,
    ;
}

/// SequenceLength: indicate a fixed length or a variable length with a
/// maximum.
pub enum SequenceLength {
    /// Exactly this many values; both sides know the count beforehand.
    Fixed(usize),
    /// Up to this many values; a reserved zero digit ends the sequence.
    Variable(usize),
}

/// Sequence type which defines a sequence of values that it knows how to
/// compress into an accumulator, one mixed-radix digit per value, and how to
/// decompress again.
pub struct Sequencer<'a, T: DeepView, S: DatumSpec<T>> {
    field_spec: &'a S,
    length: SequenceLength,
    values: PhantomData<T>,
}

impl<'a, T: DeepView, S: DatumSpec<T>> Sequencer<'a, T, S> {
    /// The field specification the sequence packs with.
    pub closed spec fn spec_field(&self) -> S {
        *self.field_spec
    }

    /// The length discipline.
    pub closed spec fn spec_length(&self) -> SequenceLength {
        self.length
    }

    /// The sequencer is usable: its field specification is well formed, and
    /// a variable-length radix, one more than the permutation count, still
    /// fits one word.
    pub open spec fn wf(&self) -> bool {
        &&& self.spec_field().wf()
    &&& (self.spec_length() matches SequenceLength::Variable(_)
        ==> self.spec_field().spec_permutations() < u64::MAX)
    }

    /// Pair a field specification with a length discipline.
    pub fn new(field_spec: &'a S, length: SequenceLength) -> (r: Self)
        ensures
            r.spec_field() == *field_spec,
            r.spec_length() == length,
    {
        Self { field_spec, length, values: PhantomData }
    }

    /// Pack the values into the accumulator, first value most significant.
    /// Fixed mode packs exactly the declared count of values; variable mode
    /// packs any list up to its maximum count and writes the zero terminator
    /// above the values.
    pub fn compress(&self, values: &[T], accum: &mut Accumulator)
        requires
            self.wf(),
            old(accum).wf(),
            forall|i: int|
                0 <= i < values.deep_view().len() ==> self.spec_field().in_domain(
                    #[trigger] values.deep_view()[i],
                ),
            match self.spec_length() {
                SequenceLength::Fixed(count) => values.deep_view().len() == count,
                SequenceLength::Variable(max_count) => values.deep_view().len() <= max_count,
            },
        ensures
            final(accum).wf(),
            final(accum).value() == match self.spec_length() {
                SequenceLength::Fixed(_) => pack(
                    old(accum).value(),
                    self.spec_field().spec_permutations() as nat,
                    codes_of::<T, S>(self.spec_field(), values.deep_view()),
                ),
                SequenceLength::Variable(_) => pack(
                    old(accum).value() * ((self.spec_field().spec_permutations() + 1) as nat),
                    (self.spec_field().spec_permutations() + 1) as nat,
                    shifted_codes(codes_of::<T, S>(self.spec_field(), values.deep_view())),
                ),
            },
    {
        match self.length {
            SequenceLength::Fixed(length) => self.compress_fixed(values, accum, length),
            SequenceLength::Variable(length) => self.compress_variable(values, accum, length),
        }
    }

    fn compress_fixed(&self, values: &[T], accum: &mut Accumulator, length: usize)
        requires
            self.spec_field().wf(),
            old(accum).wf(),
            values.deep_view().len() == length,
            forall|i: int|
                0 <= i < values.deep_view().len() ==> self.spec_field().in_domain(
                    #[trigger] values.deep_view()[i],
                ),
        ensures
            final(accum).wf(),
            final(accum).value() == pack(
                old(accum).value(),
                self.spec_field().spec_permutations() as nat,
                codes_of::<T, S>(self.spec_field(), values.deep_view()),
            ),
    {
        let ghost init: nat = accum.value();
        let ghost radix: nat = self.spec_field().spec_permutations() as nat;
        let ghost codes: Seq<u64> = codes_of::<T, S>(self.spec_field(), values.deep_view());
        let permutations: Digit = self.field_spec.permutations();
        proof {
            assert(codes.take(0) =~= Seq::<u64>::empty());
        }
        let mut ii: usize = 0;
        while ii < length
            invariant
                ii <= length,
                self.spec_field().wf(),
                values.deep_view().len() == length,
                values@.len() == length,
                forall|i: int|
                    0 <= i < values.deep_view().len() ==> self.spec_field().in_domain(
                        #[trigger] values.deep_view()[i],
                    ),
                permutations == self.spec_field().spec_permutations(),
                radix == permutations as nat,
                codes == codes_of::<T, S>(self.spec_field(), values.deep_view()),
                accum.wf(),
                accum.value() == pack(init, radix, codes.take(ii as int)),
            decreases length - ii,
        {
            accum.mul(permutations);
            proof {
                assert(values@[ii as int].deep_view() == values.deep_view()[ii as int]);
            }
            let code: Digit = self.field_spec.encode(&values[ii]).unwrap();
            accum.add(code);
            proof {
                assert(code == codes[ii as int]);
                assert(codes.take(ii + 1).drop_last() =~= codes.take(ii as int));
                assert(codes.take(ii + 1).last() == codes[ii as int]);
            }
            ii = ii + 1;
        }
        proof {
            assert(codes.take(length as int) =~= codes);
        }
    }

    fn compress_variable(&self, values: &[T], accum: &mut Accumulator, max_length: usize)
        requires
            self.spec_field().wf(),
            self.spec_field().spec_permutations() < u64::MAX,
            old(accum).wf(),
            values.deep_view().len() <= max_length,
            forall|i: int|
                0 <= i < values.deep_view().len() ==> self.spec_field().in_domain(
                    #[trigger] values.deep_view()[i],
                ),
        ensures
            final(accum).wf(),
            final(accum).value() == pack(
                old(accum).value() * ((self.spec_field().spec_permutations() + 1) as nat),
                (self.spec_field().spec_permutations() + 1) as nat,
                shifted_codes(codes_of::<T, S>(self.spec_field(), values.deep_view())),
            ),
    {
        let ghost radix: nat = (self.spec_field().spec_permutations() + 1) as nat;
        let ghost codes: Seq<u64> = shifted_codes(
            codes_of::<T, S>(self.spec_field(), values.deep_view()),
        );
        let permutations: Digit = self.field_spec.permutations() + 1;
        let count: usize = values.len();
        // Zero to indicate end of sequence
        accum.mul(permutations);
        let ghost init: nat = accum.value();
        proof {
            assert(codes.take(0) =~= Seq::<u64>::empty());
        }
        let mut ii: usize = 0;
        while ii < count
            invariant
                ii <= count,
                self.spec_field().wf(),
                values.deep_view().len() == count,
                values@.len() == count,
                forall|i: int|
                    0 <= i < values.deep_view().len() ==> self.spec_field().in_domain(
                        #[trigger] values.deep_view()[i],
                    ),
                permutations == self.spec_field().spec_permutations() + 1,
                radix == permutations as nat,
                codes == shifted_codes(
                    codes_of::<T, S>(self.spec_field(), values.deep_view()),
                ),
                accum.wf(),
                accum.value() == pack(init, radix, codes.take(ii as int)),
            decreases count - ii,
        {
            accum.mul(permutations);
            proof {
                assert(values@[ii as int].deep_view() == values.deep_view()[ii as int]);
            }
            let code: Digit = self.field_spec.encode(&values[ii]).unwrap();
            accum.add(code + 1);
            proof {
                assert(code + 1 == codes[ii as int]);
                assert(codes.take(ii + 1).drop_last() =~= codes.take(ii as int));
                assert(codes.take(ii + 1).last() == codes[ii as int]);
            }
            ii = ii + 1;
        }
        proof {
            assert(codes.take(count as int) =~= codes);
        }
    }

    /// Unpack values from the accumulator, inverting `compress` digit by
    /// digit. Each division yields the least significant remaining digit, so
    /// the buffered values are reversed before they are returned. Fixed mode
    /// divides exactly its declared count of times; variable mode stops at
    /// the zero terminator, or at its maximum count.
    pub fn decompress(&self, accum: &mut Accumulator) -> (r: Vec<T>)
        requires
            self.wf(),
            old(accum).wf(),
        ensures
            final(accum).wf(),
            match self.spec_length() {
                SequenceLength::Fixed(count) => {
                    &&& r.deep_view() == decoded_of::<T, S>(
                        self.spec_field(),
                        unpack_fixed(
                            old(accum).value(),
                            self.spec_field().spec_permutations() as nat,
                            count as nat,
                        ),
                    )
                    &&& final(accum).value() == unpack_fixed_rest(
                        old(accum).value(),
                        self.spec_field().spec_permutations() as nat,
                        count as nat,
                    )
                },
                SequenceLength::Variable(max_count) => {
                    &&& r.deep_view() == decoded_of::<T, S>(
                        self.spec_field(),
                        unpack_variable(
                            old(accum).value(),
                            (self.spec_field().spec_permutations() + 1) as nat,
                            max_count as nat,
                        ),
                    )
                    &&& final(accum).value() == unpack_variable_rest(
                        old(accum).value(),
                        (self.spec_field().spec_permutations() + 1) as nat,
                        max_count as nat,
                    )
                },
            },
    {
        match self.length {
            SequenceLength::Fixed(length) => self.decompress_fixed(accum, length),
            SequenceLength::Variable(length) => self.decompress_variable(accum, length),
        }
    }

    fn decompress_fixed(&self, accum: &mut Accumulator, length: usize) -> (r: Vec<T>)
        requires
            self.spec_field().wf(),
            old(accum).wf(),
        ensures
            final(accum).wf(),
            r.deep_view() == decoded_of::<T, S>(
                self.spec_field(),
                unpack_fixed(
                    old(accum).value(),
                    self.spec_field().spec_permutations() as nat,
                    length as nat,
                ),
            ),
            final(accum).value() == unpack_fixed_rest(
                old(accum).value(),
                self.spec_field().spec_permutations() as nat,
                length as nat,
            ),
    {
        let ghost v0: nat = accum.value();
        let ghost radix: nat = self.spec_field().spec_permutations() as nat;
        let permutations: Digit = self.field_spec.permutations();
        let mut decompressed: Vec<T> = Vec::with_capacity(length);
        let ghost mut collected: Seq<u64> = Seq::empty();
        let mut ii: usize = 0;
        while ii < length
            invariant
                ii <= length,
                self.spec_field().wf(),
                permutations == self.spec_field().spec_permutations(),
                permutations >= 1,
                radix == permutations as nat,
                accum.wf(),
                collected.len() == ii,
                decompressed@.len() == ii,
                forall|j: int|
                    0 <= j < ii ==> decompressed.deep_view()[j] == self.spec_field().decode_of(
                        #[trigger] collected[j],
                    ),
                unpack_fixed(v0, radix, length as nat) == unpack_fixed(
                    accum.value(),
                    radix,
                    (length - ii) as nat,
                ) + collected.reverse(),
                unpack_fixed_rest(v0, radix, length as nat) == unpack_fixed_rest(
                    accum.value(),
                    radix,
                    (length - ii) as nat,
                ),
            decreases length - ii,
        {
            let ghost v_before: nat = accum.value();
            let rem: Digit = accum.div(permutations);
            let val: T = self.field_spec.decode(rem).unwrap();
            decompressed.push(val);
            proof {
                collected = collected.push(rem);
                let m: nat = (length - ii) as nat;
                assert(unpack_fixed(v_before, radix, m) == unpack_fixed(
                    accum.value(),
                    radix,
                    (m - 1) as nat,
                ).push(rem));
                assert(unpack_fixed(accum.value(), radix, (m - 1) as nat).push(rem)
                    + collected.drop_last().reverse() =~= unpack_fixed(
                    accum.value(),
                    radix,
                    (m - 1) as nat,
                ) + collected.reverse());
                assert(decompressed@[ii as int] == val);
                assert(decompressed.deep_view()[ii as int] == val.deep_view());
            }
            ii = ii + 1;
        }
        proof {
            assert(unpack_fixed(v0, radix, length as nat) =~= collected.reverse());
        }
        let r: Vec<T> = reversed_vec(decompressed);
        proof {
            let codes: Seq<u64> = unpack_fixed(v0, radix, length as nat);
            assert forall|j: int| 0 <= j < length implies r.deep_view()[j] == self.spec_field()
                .decode_of(codes[j]) by {
                assert(r.deep_view()[j] == decompressed.deep_view()[length - 1 - j]);
                assert(codes[j] == collected.reverse()[j]);
                assert(collected.reverse()[j] == collected[length - 1 - j]);
            }
            assert(r.deep_view() =~= decoded_of::<T, S>(self.spec_field(), codes));
        }
        r
    }

    fn decompress_variable(&self, accum: &mut Accumulator, length: usize) -> (r: Vec<T>)
        requires
            self.spec_field().wf(),
            self.spec_field().spec_permutations() < u64::MAX,
            old(accum).wf(),
        ensures
            final(accum).wf(),
            r.deep_view() == decoded_of::<T, S>(
                self.spec_field(),
                unpack_variable(
                    old(accum).value(),
                    (self.spec_field().spec_permutations() + 1) as nat,
                    length as nat,
                ),
            ),
            final(accum).value() == unpack_variable_rest(
                old(accum).value(),
                (self.spec_field().spec_permutations() + 1) as nat,
                length as nat,
            ),
    {
        let ghost v0: nat = accum.value();
        let ghost radix: nat = (self.spec_field().spec_permutations() + 1) as nat;
        let permutations: Digit = self.field_spec.permutations() + 1;
        let mut decompressed: Vec<T> = Vec::with_capacity(length);
        let ghost mut collected: Seq<u64> = Seq::empty();
        let mut ii: usize = 0;
        while ii < length
            invariant_except_break
                ii <= length,
                self.spec_field().wf(),
                permutations == self.spec_field().spec_permutations() + 1,
                radix == permutations as nat,
                accum.wf(),
                collected.len() == ii,
                decompressed@.len() == ii,
                forall|j: int|
                    0 <= j < ii ==> decompressed.deep_view()[j] == self.spec_field().decode_of(
                        #[trigger] collected[j],
                    ),
                unpack_variable(v0, radix, length as nat) == unpack_variable(
                    accum.value(),
                    radix,
                    (length - ii) as nat,
                ) + collected.reverse(),
                unpack_variable_rest(v0, radix, length as nat) == unpack_variable_rest(
                    accum.value(),
                    radix,
                    (length - ii) as nat,
                ),
            ensures
                self.spec_field().wf(),
                permutations == self.spec_field().spec_permutations() + 1,
                radix == permutations as nat,
                accum.wf(),
                collected.len() == decompressed@.len(),
                forall|j: int|
                    0 <= j < collected.len() ==> decompressed.deep_view()[j] == self.spec_field()
                        .decode_of(#[trigger] collected[j]),
                unpack_variable(v0, radix, length as nat) == collected.reverse(),
                unpack_variable_rest(v0, radix, length as nat) == accum.value(),
            decreases length - ii,
        {
            let ghost v_before: nat = accum.value();
            let coded_value: Digit = accum.div(permutations);
            if coded_value == 0 {
                proof {
                    let m: nat = (length - ii) as nat;
                    assert(unpack_variable(v_before, radix, m) =~= Seq::<u64>::empty());
                    assert(unpack_variable(v0, radix, length as nat) =~= collected.reverse());
                    assert(unpack_variable_rest(v_before, radix, m) == accum.value());
                }
                break ;
            }
            let val: T = self.field_spec.decode(coded_value - 1).unwrap();
            decompressed.push(val);
            proof {
                collected = collected.push((coded_value - 1) as u64);
                let m: nat = (length - ii) as nat;
                assert(unpack_variable(v_before, radix, m) == unpack_variable(
                    accum.value(),
                    radix,
                    (m - 1) as nat,
                ).push((coded_value - 1) as u64));
                assert(unpack_variable(accum.value(), radix, (m - 1) as nat).push(
                    (coded_value - 1) as u64,
                ) + collected.drop_last().reverse() =~= unpack_variable(
                    accum.value(),
                    radix,
                    (m - 1) as nat,
                ) + collected.reverse());
                assert(decompressed@[ii as int] == val);
                assert(decompressed.deep_view()[ii as int] == val.deep_view());
            }
            ii = ii + 1;
        }
        let r: Vec<T> = reversed_vec(decompressed);
        proof {
            let n: int = collected.len() as int;
            let codes: Seq<u64> = unpack_variable(v0, radix, length as nat);
            assert forall|j: int| 0 <= j < n implies r.deep_view()[j] == self.spec_field()
                .decode_of(codes[j]) by {
                assert(r.deep_view()[j] == decompressed.deep_view()[n - 1 - j]);
                assert(codes[j] == collected.reverse()[j]);
                assert(collected.reverse()[j] == collected[n - 1 - j]);
            }
            assert(r.deep_view() =~= decoded_of::<T, S>(self.spec_field(), codes));
        }
        r
    }
}

/// Reverse a vector's elements, back to front.
fn reversed_vec<T: DeepView>(v: Vec<T>) -> (r: Vec<T>)
    ensures
        r@ == v@.reverse(),
        r.deep_view() == v.deep_view().reverse(),
{
    let ghost orig: Seq<T> = v@;
    let mut src: Vec<T> = v;
    let mut r: Vec<T> = Vec::new();
    while src.len() > 0
        invariant
            src@.len() <= orig.len(),
            src@ == orig.take(src@.len() as int),
            r@ == orig.skip(src@.len() as int).reverse(),
        decreases src@.len(),
    {
        let ghost k: int = src@.len() as int;
        let x: T = src.pop().unwrap();
        r.push(x);
        proof {
            assert(src@ =~= orig.take(k - 1));
            assert(orig.skip(k - 1) =~= seq![orig[k - 1]] + orig.skip(k));
            assert(r@ =~= orig.skip(k - 1).reverse());
        }
    }
    proof {
        assert(orig.skip(0) =~= orig);
        assert(r@ =~= orig.reverse());
        assert forall|j: int| 0 <= j < orig.len() implies r.deep_view()[j]
            == orig[orig.len() - 1 - j].deep_view() by {
            assert(r@[j] == orig[orig.len() - 1 - j]);
        }
        assert(r.deep_view() =~= v.deep_view().reverse());
    }
    r
}

/// Boolean type specification.
pub struct Bool {}

impl Bool {
    /// Create a boolean specification.
    pub fn new() -> (r: Self)
        ensures
            r.wf(),
    {
        Self {  }
    }
}

impl DatumSpec<bool> for Bool {
    open spec fn wf(&self) -> bool {
        true
    }

    open spec fn spec_permutations(&self) -> u64 {
        2
    }

    open spec fn in_domain(&self, v: bool) -> bool {
        true
    }

    open spec fn encode_of(&self, v: bool) -> u64 {
        if v {
            1
        } else {
            0
        }
    }

    open spec fn decode_of(&self, c: u64) -> bool {
        c == 1
    }

    fn permutations(&self) -> (r: Digit) {
        2
    }

    fn encode(&self, input: &bool) -> (r: Result<Digit, &'static str>) {
        if *input {
            Ok(1)
        } else {
            Ok(0)
        }
    }

    fn decode(&self, input: Digit) -> (r: Result<bool, &'static str>) {
        match input {
            0 => Ok(false),
            1 => Ok(true),
            _ => Err("Could not decode the given value as boolean"),
        }
    }

    proof fn lemma_round_trip(&self, v: bool) {
    }

    proof fn lemma_permutations_pos(&self) {
    }
}

/// Integer Range type specification.
pub struct IntRange {
    min: i64,
    max: i64,
}

impl IntRange {
    /// The lower bound.
    pub closed spec fn spec_min(&self) -> i64 {
        self.min
    }

    /// The upper bound.
    pub closed spec fn spec_max(&self) -> i64 {
        self.max
    }

    /// Create a range of integers, both bounds inclusive. The extreme
    /// negative value stays reserved so that the permutation count always
    /// fits an unsigned word.
    pub fn new(min: i64, max: i64) -> (r: Self)
        requires
            min > i64::MIN,
            min < max,
        ensures
            r.wf(),
            r.spec_min() == min,
            r.spec_max() == max,
    {
        Self { min, max }
    }

    /// The widest representable range.
    pub fn new_full() -> (r: Self)
        ensures
            r.wf(),
            r.spec_min() == i64::MIN + 1,
            r.spec_max() == i64::MAX,
    {
        Self::new(i64::MIN + 1, i64::MAX)
    }
}

impl DatumSpec<i64> for IntRange {
    open spec fn wf(&self) -> bool {
        i64::MIN < self.spec_min() < self.spec_max()
    }

    open spec fn spec_permutations(&self) -> u64 {
        (self.spec_max() - self.spec_min() + 1) as u64
    }

    open spec fn in_domain(&self, v: i64) -> bool {
        self.spec_min() <= v <= self.spec_max()
    }

    open spec fn encode_of(&self, v: i64) -> u64 {
        (v - self.spec_min()) as u64
    }

    open spec fn decode_of(&self, c: u64) -> i64 {
        (self.spec_min() + c) as i64
    }

    fn permutations(&self) -> (r: Digit) {
        (((self.max as i128) - (self.min as i128)) + 1) as u64
    }

    fn encode(&self, input: &i64) -> (r: Result<Digit, &'static str>) {
        if *input < self.min || *input > self.max {
            return Err("Value to encode is outside allowed range");
        }
        Ok(((*input as i128) - (self.min as i128)) as u64)
    }

    fn decode(&self, input: Digit) -> (r: Result<i64, &'static str>) {
        if input >= self.permutations() {
            return Err("Cannot decode data, input larger than possible permutations");
        }
        Ok(((input as i128) + (self.min as i128)) as i64)
    }

    proof fn lemma_round_trip(&self, v: i64) {
    }

    proof fn lemma_permutations_pos(&self) {
    }
}

/// Number range in fixed point format.
///
/// Values are signed fixed-point numbers pre-scaled by `2^decimals`, stored
/// and coded in that scaled form; converting between scaled values and the
/// numbers they stand for (with its quantization loss) happens outside this
/// type. Bounds are limited to the magnitude that leaves the scaled value
/// representable, which also keeps the permutation count in an unsigned word.
pub struct FixedPointRange {
    min: i64,
    max: i64,
    decimals: u32,
}

impl FixedPointRange {
    /// The lower bound, pre-scaled by `2^decimals`.
    pub closed spec fn spec_min(&self) -> i64 {
        self.min
    }

    /// The upper bound, pre-scaled by `2^decimals`.
    pub closed spec fn spec_max(&self) -> i64 {
        self.max
    }

    /// The number of binary decimal places.
    pub closed spec fn spec_decimals(&self) -> u32 {
        self.decimals
    }

    /// The largest magnitude a bound may have for this scaling.
    pub open spec fn spec_abs_max(&self) -> int {
        (i64::MAX as int) / (vstd::arithmetic::power2::pow2(self.spec_decimals() as nat) as int)
    }

    /// Create a fixed-point range from bounds already scaled by
    /// `2^decimals` and clamped to the representable magnitude.
    pub fn new(min: i64, max: i64, decimals: u32) -> (r: Self)
        requires
            decimals < 64,
            min <= max,
            -((i64::MAX as int) / (vstd::arithmetic::power2::pow2(decimals as nat) as int)) <= min,
            max <= (i64::MAX as int) / (vstd::arithmetic::power2::pow2(decimals as nat) as int),
        ensures
            r.wf(),
            r.spec_min() == min,
            r.spec_max() == max,
            r.spec_decimals() == decimals,
    {
        Self { min, max, decimals }
    }

    /// The number of binary decimal places the values are scaled by.
    pub fn decimals(&self) -> (r: u32)
        ensures
            r == self.spec_decimals(),
    {
        self.decimals
    }
}

impl DatumSpec<i64> for FixedPointRange {
    open spec fn wf(&self) -> bool {
        &&& self.spec_decimals() < 64
    &&& self.spec_min() <= self.spec_max()
    &&& -self.spec_abs_max() <= self.spec_min()
    &&& self.spec_max() <= self.spec_abs_max()
    }

    open spec fn spec_permutations(&self) -> u64 {
        (self.spec_max() - self.spec_min() + 1) as u64
    }

    open spec fn in_domain(&self, v: i64) -> bool {
        self.spec_min() <= v <= self.spec_max()
    }

    open spec fn encode_of(&self, v: i64) -> u64 {
        (v - self.spec_min()) as u64
    }

    open spec fn decode_of(&self, c: u64) -> i64 {
        (self.spec_min() + c) as i64
    }

    fn permutations(&self) -> (r: Digit) {
        proof {
            vstd::arithmetic::power2::lemma_pow2_pos(self.spec_decimals() as nat);
            vstd::arithmetic::div_mod::lemma_div_nonincreasing(i64::MAX as int, vstd::arithmetic::power2::pow2(self.spec_decimals() as nat) as int);
            vstd::arithmetic::div_mod::lemma_div_pos_is_pos(i64::MAX as int, vstd::arithmetic::power2::pow2(self.spec_decimals() as nat) as int);
        }
        (((self.max as i128) - (self.min as i128)) + 1) as u64
    }

    fn encode(&self, input: &i64) -> (r: Result<Digit, &'static str>) {
        if *input < self.min {
            Err("Number is too small to be encoded as a fixed point")
        } else if *input > self.max {
            Err("Number is too big to be encoded as a fixed point")
        } else {
            proof {
                vstd::arithmetic::power2::lemma_pow2_pos(self.spec_decimals() as nat);
                vstd::arithmetic::div_mod::lemma_div_nonincreasing(i64::MAX as int, vstd::arithmetic::power2::pow2(self.spec_decimals() as nat) as int);
                vstd::arithmetic::div_mod::lemma_div_pos_is_pos(i64::MAX as int, vstd::arithmetic::power2::pow2(self.spec_decimals() as nat) as int);
            }
            Ok(((*input as i128) - (self.min as i128)) as u64)
        }
    }

    fn decode(&self, input: Digit) -> (r: Result<i64, &'static str>) {
        if input >= self.permutations() {
            return Err("Cannot decode data, input larger than possible permutations");
        }
        Ok(((input as i128) + (self.min as i128)) as i64)
    }

    proof fn lemma_round_trip(&self, v: i64) {
        vstd::arithmetic::power2::lemma_pow2_pos(self.spec_decimals() as nat);
        vstd::arithmetic::div_mod::lemma_div_nonincreasing(i64::MAX as int, vstd::arithmetic::power2::pow2(self.spec_decimals() as nat) as int);
        vstd::arithmetic::div_mod::lemma_div_pos_is_pos(i64::MAX as int, vstd::arithmetic::power2::pow2(self.spec_decimals() as nat) as int);
    }

    proof fn lemma_permutations_pos(&self) {
        vstd::arithmetic::power2::lemma_pow2_pos(self.spec_decimals() as nat);
        vstd::arithmetic::div_mod::lemma_div_nonincreasing(
            i64::MAX as int,
            vstd::arithmetic::power2::pow2(self.spec_decimals() as nat) as int,
        );
        vstd::arithmetic::div_mod::lemma_div_pos_is_pos(
            i64::MAX as int,
            vstd::arithmetic::power2::pow2(self.spec_decimals() as nat) as int,
        );
    }
}

/// CharSet type specification: a bijection between the characters of a
/// duplicate-free alphabet and their positions in it.
pub struct CharSet {
    charset: Vec<char>,
}

impl CharSet {
    /// The ordered characters: the code-to-character side of the bijection.
    pub closed spec fn spec_charset(&self) -> Seq<char> {
        self.charset@
    }

    /// Build from the characters of a string, which must be non-empty and
    /// free of duplicates.
    pub fn new(charset: &str) -> (r: Self)
        requires
            charset@.len() >= 1,
            forall|i: int, j: int| 0 <= i < j < charset@.len() ==> charset@[i] != charset@[j],
        ensures
            r.wf(),
            r.spec_charset() == charset@,
    {
        let n: usize = charset.unicode_len();
        let mut cs: Vec<char> = Vec::new();
        let mut i: usize = 0;
        while i < n
            invariant
                i <= n,
                n == charset@.len(),
                cs@ == charset@.take(i as int),
            decreases n - i,
        {
            let c: char = charset.get_char(i);
            cs.push(c);
            i = i + 1;
            proof {
                assert(cs@ =~= charset@.take(i as int));
            }
        }
        proof {
            assert(charset@.take(n as int) =~= charset@);
        }
        Self { charset: cs }
    }

    /// The lowercase letters.
    pub fn lowercase_letter() -> (r: Self)
        ensures
            r.wf(),
            r.spec_charset() == "abcdefghijklmnopqrstuvwxyz"@,
    {
        proof {
            reveal_strlit("abcdefghijklmnopqrstuvwxyz");
        }
        Self::new("abcdefghijklmnopqrstuvwxyz")
    }

    /// The lowercase letters with common punctuation and digits.
    pub fn lowercase_ascii() -> (r: Self)
        ensures
            r.wf(),
            r.spec_charset() == "abcdefghijklmnopqrstuvwxyz .!?0123456789()&@#$%:;'\""@,
    {
        proof {
            reveal_strlit("abcdefghijklmnopqrstuvwxyz .!?0123456789()&@#$%:;'\"");
        }
        Self::new("abcdefghijklmnopqrstuvwxyz .!?0123456789()&@#$%:;'\"")
    }

    /// The uppercase letters.
    pub fn uppercase_letter() -> (r: Self)
        ensures
            r.wf(),
            r.spec_charset() == "ABCDEFGHIJKLMNOPQRSTUVWXYZ"@,
    {
        proof {
            reveal_strlit("ABCDEFGHIJKLMNOPQRSTUVWXYZ");
        }
        Self::new("ABCDEFGHIJKLMNOPQRSTUVWXYZ")
    }

    /// The uppercase letters with common punctuation and digits.
    pub fn uppercase_ascii() -> (r: Self)
        ensures
            r.wf(),
            r.spec_charset() == "ABCDEFGHIJKLMNOPQRSTUVWXYZ .!?0123456789()&@#$%:;'\""@,
    {
        proof {
            reveal_strlit("ABCDEFGHIJKLMNOPQRSTUVWXYZ .!?0123456789()&@#$%:;'\"");
        }
        Self::new("ABCDEFGHIJKLMNOPQRSTUVWXYZ .!?0123456789()&@#$%:;'\"")
    }
}

impl DatumSpec<char> for CharSet {
    open spec fn wf(&self) -> bool {
        &&& 1 <= self.spec_charset().len() <= usize::MAX
    &&& forall|i: int, j: int|
        0 <= i < j < self.spec_charset().len() ==> self.spec_charset()[i]
            != self.spec_charset()[j]
    }

    open spec fn spec_permutations(&self) -> u64 {
        self.spec_charset().len() as u64
    }

    open spec fn in_domain(&self, v: char) -> bool {
        self.spec_charset().contains(v)
    }

    open spec fn encode_of(&self, v: char) -> u64 {
        self.spec_charset().index_of(v) as u64
    }

    open spec fn decode_of(&self, c: u64) -> char {
        self.spec_charset()[c as int]
    }

    fn permutations(&self) -> (r: Digit) {
        self.charset.len() as u64
    }

    fn encode(&self, input: &char) -> (r: Result<Digit, &'static str>) {
        let n: usize = self.charset.len();
        let mut i: usize = 0;
        while i < n
            invariant
                i <= n,
                n == self.spec_charset().len(),
                self.wf(),
                forall|j: int| 0 <= j < i ==> self.spec_charset()[j] != *input,
            decreases n - i,
        {
            if self.charset[i] == *input {
                proof {
                    let s: Seq<char> = self.spec_charset();
                    assert(s.contains(*input)) by {
                        assert(0 <= i < s.len() && s[i as int] == *input);
                    }
                    let ix: int = s.index_of(*input);
                    assert(0 <= ix < s.len() && s[ix] == *input);
                    if ix < i {
                        assert(s[ix] != s[i as int]);
                    }
                    if ix > i {
                        assert(s[i as int] != s[ix]);
                    }
                    assert(ix == i);
                }
                return Ok(i as u64);
            }
            i = i + 1;
        }
        proof {
            assert(!self.spec_charset().contains(*input));
        }
        Err("Could not encode character not defined in the character set")
    }

    fn decode(&self, input: Digit) -> (r: Result<char, &'static str>) {
        if input >= self.charset.len() as u64 {
            return Err("Could not decode value to a character");
        }
        let c: char = self.charset[input as usize];
        proof {
            let s: Seq<char> = self.spec_charset();
            assert(s.contains(c)) by {
                assert(0 <= input < s.len() && s[input as int] == c);
            }
        }
        Ok(c)
    }

    proof fn lemma_round_trip(&self, v: char) {
        let s: Seq<char> = self.spec_charset();
        let ix: int = s.index_of(v);
        assert(0 <= ix < s.len() && s[ix] == v);
    }

    proof fn lemma_permutations_pos(&self) {
    }
}

/// Enumeration type specification: a bijection between a duplicate-free set
/// of strings and their positions in it.
pub struct Enum {
    options: Vec<String>,
}

impl Enum {
    /// The ordered options: the code-to-string side of the bijection.
    pub closed spec fn spec_options(&self) -> Seq<Seq<char>> {
        self.options.deep_view()
    }

    /// Build from a non-empty list of distinct strings, kept in order.
    pub fn new(options: &[&str]) -> (r: Self)
        requires
            options@.len() >= 1,
            forall|i: int, j: int| 0 <= i < j < options@.len() ==> options@[i]@ != options@[j]@,
        ensures
            r.wf(),
            r.spec_options() == options.deep_view(),
    {
        let n: usize = options.len();
        let mut os: Vec<String> = Vec::new();
        let mut i: usize = 0;
        while i < n
            invariant
                i <= n,
                n == options@.len(),
                os@.len() == i,
                forall|j: int| 0 <= j < i ==> os@[j]@ == options@[j]@,
            decreases n - i,
        {
            let o: String = options[i].to_owned();
            os.push(o);
            i = i + 1;
        }
        let r = Self { options: os };
        proof {
            assert(r.spec_options() =~~= options.deep_view());
        }
        r
    }
}

impl DatumSpec<String> for Enum {
    open spec fn wf(&self) -> bool {
        &&& 1 <= self.spec_options().len() <= usize::MAX
    &&& forall|i: int, j: int|
        0 <= i < j < self.spec_options().len() ==> self.spec_options()[i]
            != self.spec_options()[j]
    }

    open spec fn spec_permutations(&self) -> u64 {
        self.spec_options().len() as u64
    }

    open spec fn in_domain(&self, v: Seq<char>) -> bool {
        self.spec_options().contains(v)
    }

    open spec fn encode_of(&self, v: Seq<char>) -> u64 {
        self.spec_options().index_of(v) as u64
    }

    open spec fn decode_of(&self, c: u64) -> Seq<char> {
        self.spec_options()[c as int]
    }

    fn permutations(&self) -> (r: Digit) {
        self.options.len() as u64
    }

    fn encode(&self, input: &String) -> (r: Result<Digit, &'static str>) {
        let n: usize = self.options.len();
        let mut i: usize = 0;
        while i < n
            invariant
                i <= n,
                n == self.spec_options().len(),
                self.wf(),
                forall|j: int| 0 <= j < i ==> self.spec_options()[j] != input@,
            decreases n - i,
        {
            if self.options[i] == *input {
                proof {
                    let s: Seq<Seq<char>> = self.spec_options();
                    assert(s.contains(input@)) by {
                        assert(0 <= i < s.len() && s[i as int] == input@);
                    }
                    let ix: int = s.index_of(input@);
                    assert(0 <= ix < s.len() && s[ix] == input@);
                    if ix < i {
                        assert(s[ix] != s[i as int]);
                    }
                    if ix > i {
                        assert(s[i as int] != s[ix]);
                    }
                    assert(ix == i);
                }
                return Ok(i as u64);
            }
            i = i + 1;
        }
        proof {
            assert(!self.spec_options().contains(input@));
        }
        Err("Given value not contained in this Enum type")
    }

    fn decode(&self, input: Digit) -> (r: Result<String, &'static str>) {
        if input >= self.options.len() as u64 {
            return Err("Could not decode value as an Enum");
        }
        let v: String = self.options[input as usize].clone();
        proof {
            let s: Seq<Seq<char>> = self.spec_options();
            assert(s.contains(v@)) by {
                assert(0 <= input < s.len() && s[input as int] == v@);
            }
        }
        Ok(v)
    }

    proof fn lemma_round_trip(&self, v: Seq<char>) {
        let s: Seq<Seq<char>> = self.spec_options();
        let ix: int = s.index_of(v);
        assert(0 <= ix < s.len() && s[ix] == v);
    }

    proof fn lemma_permutations_pos(&self) {
    }
}


/// Unpacking inverts packing, digit by digit: dividing a packed number by
/// its radix as many times as there are codes yields the codes again, in
/// order, and leaves exactly what the accumulator held before packing.
pub proof fn lemma_pack_unpack_fixed(init: nat, radix: nat, codes: Seq<u64>)
    requires
        1 <= radix <= u64::MAX,
        forall|i: int| 0 <= i < codes.len() ==> codes[i] < radix,
    ensures
        unpack_fixed(pack(init, radix, codes), radix, codes.len()) == codes,
        unpack_fixed_rest(pack(init, radix, codes), radix, codes.len()) == init,
    decreases codes.len(),
{
    if codes.len() == 0 {
        assert(unpack_fixed(init, radix, 0) =~= codes);
    } else {
        let low: Seq<u64> = codes.drop_last();
        let q: nat = pack(init, radix, low);
        let p: nat = pack(init, radix, codes);
        vstd::arithmetic::div_mod::lemma_fundamental_div_mod_converse(
            p as int,
            radix as int,
            q as int,
            codes.last() as int,
        );
        assert(p / radix == q && p % radix == codes.last());
        lemma_pack_unpack_fixed(init, radix, low);
        assert(unpack_fixed(p, radix, codes.len()) == unpack_fixed(
            q,
            radix,
            (codes.len() - 1) as nat,
        ).push((p % radix) as u64));
        assert(unpack_fixed(p, radix, codes.len()) =~= codes);
    }
}

/// Unpacking inverts variable-length packing: the divisions yield the codes
/// again, in order. If the list was shorter than the maximum, the zero
/// terminator is consumed too and exactly the prior contents remain; a list
/// at the maximum leaves the terminator digit in place.
pub proof fn lemma_pack_unpack_variable(init: nat, radix: nat, codes: Seq<u64>, max_count: nat)
    requires
        2 <= radix <= u64::MAX,
        codes.len() <= max_count,
        forall|i: int| 0 <= i < codes.len() ==> codes[i] < radix - 1,
    ensures
        unpack_variable(pack(init * radix, radix, shifted_codes(codes)), radix, max_count)
            == codes,
        codes.len() < max_count ==> unpack_variable_rest(
            pack(init * radix, radix, shifted_codes(codes)),
            radix,
            max_count,
        ) == init,
        codes.len() == max_count ==> unpack_variable_rest(
            pack(init * radix, radix, shifted_codes(codes)),
            radix,
            max_count,
        ) == init * radix,
    decreases codes.len(),
{
    let shifted: Seq<u64> = shifted_codes(codes);
    if codes.len() == 0 {
        assert(shifted =~= Seq::<u64>::empty());
        assert(pack(init * radix, radix, shifted) == init * radix);
        if max_count > 0 {
            vstd::arithmetic::div_mod::lemma_mod_multiples_basic(init as int, radix as int);
            vstd::arithmetic::div_mod::lemma_div_by_multiple(init as int, radix as int);
            assert((init * radix) % radix == 0);
            assert(unpack_variable(init * radix, radix, max_count) =~= codes);
        } else {
            assert(unpack_variable(init * radix, radix, 0) =~= codes);
        }
    } else {
        let low: Seq<u64> = codes.drop_last();
        assert(shifted.drop_last() =~= shifted_codes(low));
        let q: nat = pack(init * radix, radix, shifted_codes(low));
        let p: nat = pack(init * radix, radix, shifted);
        assert(shifted.last() == codes.last() + 1);
        vstd::arithmetic::div_mod::lemma_fundamental_div_mod_converse(
            p as int,
            radix as int,
            q as int,
            shifted.last() as int,
        );
        assert(p / radix == q && p % radix == codes.last() + 1);
        lemma_pack_unpack_variable(init, radix, low, (max_count - 1) as nat);
        assert(unpack_variable(p, radix, max_count) == unpack_variable(
            q,
            radix,
            (max_count - 1) as nat,
        ).push(((p % radix) - 1) as u64));
        assert(unpack_variable(p, radix, max_count) =~= codes);
    }
}

/// Sequence round trip, fixed length: decompressing what compress packed
/// yields the same list of values, in order, and returns the accumulator to
/// exactly what it held before.
pub proof fn lemma_sequence_round_trip_fixed<T: DeepView, S: DatumSpec<T>>(
    s: S,
    init: nat,
    vals: Seq<T::V>,
)
    requires
        s.wf(),
        forall|i: int| 0 <= i < vals.len() ==> s.in_domain(#[trigger] vals[i]),
    ensures
        decoded_of::<T, S>(
            s,
            unpack_fixed(
                pack(init, s.spec_permutations() as nat, codes_of::<T, S>(s, vals)),
                s.spec_permutations() as nat,
                vals.len(),
            ),
        ) == vals,
        unpack_fixed_rest(
            pack(init, s.spec_permutations() as nat, codes_of::<T, S>(s, vals)),
            s.spec_permutations() as nat,
            vals.len(),
        ) == init,
{
    let radix: nat = s.spec_permutations() as nat;
    let codes: Seq<u64> = codes_of::<T, S>(s, vals);
    s.lemma_permutations_pos();
    assert forall|i: int| 0 <= i < codes.len() implies codes[i] < radix by {
        s.lemma_round_trip(vals[i]);
    }
    lemma_pack_unpack_fixed(init, radix, codes);
    assert forall|i: int| 0 <= i < vals.len() implies s.decode_of(codes[i]) == vals[i] by {
        s.lemma_round_trip(vals[i]);
    }
    assert(decoded_of::<T, S>(s, unpack_fixed(pack(init, radix, codes), radix, vals.len()))
        =~= vals);
}

/// Sequence round trip, variable length: decompressing what compress packed
/// yields the same list of values, in order. When the list was shorter than
/// the maximum, the terminator is consumed too and the accumulator returns
/// to exactly what it held before.
pub proof fn lemma_sequence_round_trip_variable<T: DeepView, S: DatumSpec<T>>(
    s: S,
    init: nat,
    vals: Seq<T::V>,
    max_count: nat,
)
    requires
        s.wf(),
        s.spec_permutations() < u64::MAX,
        vals.len() <= max_count,
        forall|i: int| 0 <= i < vals.len() ==> s.in_domain(#[trigger] vals[i]),
    ensures
        decoded_of::<T, S>(
            s,
            unpack_variable(
                pack(
                    init * ((s.spec_permutations() + 1) as nat),
                    (s.spec_permutations() + 1) as nat,
                    shifted_codes(codes_of::<T, S>(s, vals)),
                ),
                (s.spec_permutations() + 1) as nat,
                max_count,
            ),
        ) == vals,
        vals.len() < max_count ==> unpack_variable_rest(
            pack(
                init * ((s.spec_permutations() + 1) as nat),
                (s.spec_permutations() + 1) as nat,
                shifted_codes(codes_of::<T, S>(s, vals)),
            ),
            (s.spec_permutations() + 1) as nat,
            max_count,
        ) == init,
{
    let radix: nat = (s.spec_permutations() + 1) as nat;
    let codes: Seq<u64> = codes_of::<T, S>(s, vals);
    s.lemma_permutations_pos();
    assert forall|i: int| 0 <= i < codes.len() implies codes[i] < radix - 1 by {
        s.lemma_round_trip(vals[i]);
    }
    lemma_pack_unpack_variable(init, radix, codes, max_count);
    assert forall|i: int| 0 <= i < vals.len() implies s.decode_of(codes[i]) == vals[i] by {
        s.lemma_round_trip(vals[i]);
    }
    assert(decoded_of::<T, S>(
        s,
        unpack_variable(pack(init * radix, radix, shifted_codes(codes)), radix, max_count),
    ) =~= vals);
}

} // verus!
