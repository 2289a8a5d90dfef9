//! Encoding values as bytes and reading them back.
use vstd::prelude::*;

use crate::bytes::{
    be_bytes, be_value, byte_span, lemma_be_bytes_len, lemma_byte_spans, lemma_decode_encoded, lemma_encode_decoded,
    push_be, read_be,
};

verus! {

/// Why bytes are not the encoding of a value.
#[derive(Clone, Copy, Debug, PartialEq, Eq, Structural)]
pub enum DecodeError {
    /// The bytes end before the value does.
    UnexpectedEnd,
    /// A tag, a version or a number is none that is written.
    InvalidData,
    /// There are bytes after the value.
    TooMuchData,
}

/// A value that was read, and the bytes after it.
#[verifier::ext_equal]
pub struct Parsed<V> {
    pub value: V,
    pub rest: Seq<u8>,
}

/// Reads bytes from the front.
pub struct Reader<'a> {
    data: &'a Vec<u8>,
    at: usize,
}

impl<'a> View for Reader<'a> {
    type V = Seq<u8>;

    /// The bytes that are left.
    closed spec fn view(&self) -> Seq<u8> {
        self.data@.skip(self.at as int)
    }
}

impl<'a> Reader<'a> {
    #[verifier::type_invariant]
    spec fn well_formed(&self) -> bool {
        self.at <= self.data@.len()
    }

    pub fn new(data: &'a Vec<u8>) -> (r: Self)
        ensures
            r@ == data@,
    {
        let r = Reader { data, at: 0 };
        proof {
            assert(r@ =~= data@);
        }
        r
    }

    /// Reads a big-endian number.
    pub fn read_number(&mut self, width: usize) -> (r: Result<u128, DecodeError>)
        requires
            width <= 16,
        ensures
            match r {
                Ok(number) => {
                    &&& old(self)@.len() >= width
                    &&& number == be_value(old(self)@.take(width as int))
                    &&& number < byte_span(width as nat)
                    &&& final(self)@ == old(self)@.skip(width as int)
                },
                Err(error) => old(self)@.len() < width && error == DecodeError::UnexpectedEnd,
            },
    {
        proof {
            use_type_invariant(&*self);
        }
        let ghost before = self@;
        if self.data.len() - self.at < width {
            return Err(DecodeError::UnexpectedEnd);
        }
        let number: u128 = read_be(self.data, self.at, width);
        let next: usize = self.at + width;
        proof {
            assert(self.data@.subrange(self.at as int, self.at + width) =~= before.take(width as int));
            assert(self.data@.skip(next as int) =~= before.skip(width as int));
        }
        self.at = next;
        Ok(number)
    }

    /// Nothing may be left.
    pub fn expect_finished(&self) -> (r: Result<(), DecodeError>)
        ensures
            match r {
                Ok(_) => self@ == Seq::<u8>::empty(),
                Err(error) => self@.len() > 0 && error == DecodeError::TooMuchData,
            },
    {
        proof {
            use_type_invariant(self);
        }
        if self.at == self.data.len() {
            proof {
                assert(self@ =~= Seq::<u8>::empty());
            }
            Ok(())
        } else {
            Err(DecodeError::TooMuchData)
        }
    }
}

/// The number in the first bytes.
pub open spec fn parse_number(bytes: Seq<u8>, width: nat) -> Result<Parsed<nat>, DecodeError> {
    if bytes.len() < width {
        Err(DecodeError::UnexpectedEnd)
    } else {
        Ok(Parsed { value: be_value(bytes.take(width as int)), rest: bytes.skip(width as int) })
    }
}

proof fn lemma_number_round_trip(x: nat, width: nat, rest: Seq<u8>)
    requires
        x < byte_span(width),
    ensures
        parse_number(be_bytes(x, width) + rest, width) == Ok::<_, DecodeError>(Parsed { value: x, rest }),
{
    let bytes = be_bytes(x, width) + rest;
    lemma_be_bytes_len(x, width);
    lemma_decode_encoded(x, width);
    assert(bytes.take(width as int) =~= be_bytes(x, width));
    assert(bytes.skip(width as int) =~= rest);
}

proof fn lemma_number_canonical(bytes: Seq<u8>, width: nat)
    requires
        parse_number(bytes, width) is Ok,
    ensures
        ({
            let parsed = parse_number(bytes, width)->Ok_0;
            bytes == be_bytes(parsed.value, width) + parsed.rest && parsed.value < byte_span(width)
        }),
{
    lemma_encode_decoded(bytes.take(width as int));
    assert(bytes =~= bytes.take(width as int) + bytes.skip(width as int));
}

/// A value with an encoding.
pub trait Codec: DeepView + Sized {
    /// The encoding.
    spec fn encoding(value: Self::V) -> Seq<u8>;

    /// The value at the front of bytes.
    spec fn parse(bytes: Seq<u8>) -> Result<Parsed<Self::V>, DecodeError>;

    /// The value is of a size that can be encoded.
    spec fn fits(value: Self::V) -> bool;

    fn write(&self, out: &mut Vec<u8>)
        ensures
            final(out)@ == old(out)@ + Self::encoding(self.deep_view()),
            Self::fits(self.deep_view()),
    ;

    fn read(reader: &mut Reader<'_>) -> (r: Result<Self, DecodeError>)
        ensures
            match r {
                Ok(value) => Self::parse(old(reader)@) == Ok::<_, DecodeError>(
                    Parsed { value: value.deep_view(), rest: final(reader)@ },
                ),
                Err(error) => Self::parse(old(reader)@) == Err::<Parsed<Self::V>, _>(error),
            },
    ;

    /// What was written is read back.
    proof fn round_trip(value: Self::V, rest: Seq<u8>)
        requires
            Self::fits(value),
        ensures
            Self::parse(Self::encoding(value) + rest) == Ok::<_, DecodeError>(Parsed { value, rest }),
    ;

    /// Only what is written is read.
    proof fn canonical(bytes: Seq<u8>)
        requires
            Self::parse(bytes) is Ok,
        ensures
            bytes == Self::encoding(Self::parse(bytes)->Ok_0.value) + Self::parse(bytes)->Ok_0.rest,
            Self::fits(Self::parse(bytes)->Ok_0.value),
    ;
}

impl Codec for u64 {
    open spec fn encoding(value: u64) -> Seq<u8> {
        be_bytes(value as nat, 8)
    }

    open spec fn parse(bytes: Seq<u8>) -> Result<Parsed<u64>, DecodeError> {
        match parse_number(bytes, 8) {
            Ok(parsed) => Ok(Parsed { value: parsed.value as u64, rest: parsed.rest }),
            Err(error) => Err(error),
        }
    }

    open spec fn fits(value: u64) -> bool {
        true
    }

    fn write(&self, out: &mut Vec<u8>) {
        push_be(out, *self as u128, 8);
    }

    fn read(reader: &mut Reader<'_>) -> (r: Result<Self, DecodeError>) {
        proof {
            lemma_byte_spans();
        }
        match reader.read_number(8) {
            Ok(number) => Ok(number as u64),
            Err(error) => Err(error),
        }
    }

    proof fn round_trip(value: u64, rest: Seq<u8>) {
        lemma_byte_spans();
        lemma_number_round_trip(value as nat, 8, rest);
    }

    proof fn canonical(bytes: Seq<u8>) {
        lemma_byte_spans();
        lemma_number_canonical(bytes, 8);
    }
}

impl Codec for u8 {
    open spec fn encoding(value: u8) -> Seq<u8> {
        be_bytes(value as nat, 1)
    }

    open spec fn parse(bytes: Seq<u8>) -> Result<Parsed<u8>, DecodeError> {
        match parse_number(bytes, 1) {
            Ok(parsed) => Ok(Parsed { value: parsed.value as u8, rest: parsed.rest }),
            Err(error) => Err(error),
        }
    }

    open spec fn fits(value: u8) -> bool {
        true
    }

    fn write(&self, out: &mut Vec<u8>) {
        push_be(out, *self as u128, 1);
    }

    fn read(reader: &mut Reader<'_>) -> (r: Result<Self, DecodeError>) {
        proof {
            lemma_byte_spans();
            reveal_with_fuel(byte_span, 2);
        }
        match reader.read_number(1) {
            Ok(number) => Ok(number as u8),
            Err(error) => Err(error),
        }
    }

    proof fn round_trip(value: u8, rest: Seq<u8>) {
        reveal_with_fuel(byte_span, 2);
        lemma_number_round_trip(value as nat, 1, rest);
    }

    proof fn canonical(bytes: Seq<u8>) {
        reveal_with_fuel(byte_span, 2);
        lemma_number_canonical(bytes, 1);
    }
}

impl Codec for u128 {
    open spec fn encoding(value: u128) -> Seq<u8> {
        be_bytes(value as nat, 16)
    }

    open spec fn parse(bytes: Seq<u8>) -> Result<Parsed<u128>, DecodeError> {
        match parse_number(bytes, 16) {
            Ok(parsed) => Ok(Parsed { value: parsed.value as u128, rest: parsed.rest }),
            Err(error) => Err(error),
        }
    }

    open spec fn fits(value: u128) -> bool {
        true
    }

    fn write(&self, out: &mut Vec<u8>) {
        push_be(out, *self, 16);
    }

    fn read(reader: &mut Reader<'_>) -> (r: Result<Self, DecodeError>) {
        reader.read_number(16)
    }

    proof fn round_trip(value: u128, rest: Seq<u8>) {
        lemma_byte_spans();
        lemma_number_round_trip(value as nat, 16, rest);
    }

    proof fn canonical(bytes: Seq<u8>) {
        lemma_byte_spans();
        lemma_number_canonical(bytes, 16);
    }
}

/// A size is written in eight bytes; one that the machine does not have is refused.
impl Codec for usize {
    open spec fn encoding(value: usize) -> Seq<u8> {
        be_bytes(value as nat, 8)
    }

    open spec fn parse(bytes: Seq<u8>) -> Result<Parsed<usize>, DecodeError> {
        match parse_number(bytes, 8) {
            Ok(parsed) => if parsed.value <= usize::MAX {
                Ok(Parsed { value: parsed.value as usize, rest: parsed.rest })
            } else {
                Err(DecodeError::InvalidData)
            },
            Err(error) => Err(error),
        }
    }

    open spec fn fits(value: usize) -> bool {
        true
    }

    fn write(&self, out: &mut Vec<u8>) {
        push_be(out, *self as u128, 8);
    }

    fn read(reader: &mut Reader<'_>) -> (r: Result<Self, DecodeError>) {
        match reader.read_number(8) {
            Ok(number) => if number <= usize::MAX as u128 {
                Ok(number as usize)
            } else {
                Err(DecodeError::InvalidData)
            },
            Err(error) => Err(error),
        }
    }

    proof fn round_trip(value: usize, rest: Seq<u8>) {
        lemma_byte_spans();
        lemma_number_round_trip(value as nat, 8, rest);
    }

    proof fn canonical(bytes: Seq<u8>) {
        lemma_byte_spans();
        lemma_number_canonical(bytes, 8);
    }
}

/// Joining bytes is associative.
pub proof fn lemma_join(a: Seq<u8>, b: Seq<u8>, c: Seq<u8>)
    ensures
        (a + b) + c == a + (b + c),
{
    assert((a + b) + c =~= a + (b + c));
}

/// Values one after the other.
pub open spec fn encode_all<T: Codec>(values: Seq<T::V>) -> Seq<u8>
    decreases values.len(),
{
    if values.len() == 0 {
        Seq::empty()
    } else {
        T::encoding(values[0]) + encode_all::<T>(values.skip(1))
    }
}

/// So many values one after the other.
pub open spec fn parse_all<T: Codec>(bytes: Seq<u8>, n: nat) -> Result<Parsed<Seq<T::V>>, DecodeError>
    decreases n,
{
    if n == 0 {
        Ok(Parsed { value: Seq::empty(), rest: bytes })
    } else {
        match T::parse(bytes) {
            Err(error) => Err(error),
            Ok(first) => match parse_all::<T>(first.rest, (n - 1) as nat) {
                Err(error) => Err(error),
                Ok(others) => Ok(Parsed { value: seq![first.value] + others.value, rest: others.rest }),
            },
        }
    }
}

/// Every value can be encoded.
pub open spec fn all_fit<T: Codec>(values: Seq<T::V>) -> bool {
    forall|i: int| 0 <= i < values.len() ==> T::fits(#[trigger] values[i])
}

proof fn lemma_all_round_trip<T: Codec>(values: Seq<T::V>, rest: Seq<u8>)
    requires
        all_fit::<T>(values),
    ensures
        parse_all::<T>(encode_all::<T>(values) + rest, values.len()) == Ok::<_, DecodeError>(
            Parsed { value: values, rest },
        ),
    decreases values.len(),
{
    if values.len() == 0 {
        assert(encode_all::<T>(values) + rest =~= rest);
        assert(values =~= Seq::empty());
    } else {
        let others = values.skip(1);
        assert forall|i: int| 0 <= i < others.len() implies T::fits(#[trigger] others[i]) by {
            assert(T::fits(values[i + 1]));
        }
        lemma_all_round_trip::<T>(others, rest);
        assert(T::fits(values[0]));
        T::round_trip(values[0], encode_all::<T>(others) + rest);
        assert(encode_all::<T>(values) + rest =~= T::encoding(values[0]) + (encode_all::<T>(others) + rest));
        assert(seq![values[0]] + others =~= values);
    }
}

proof fn lemma_all_canonical<T: Codec>(bytes: Seq<u8>, n: nat)
    requires
        parse_all::<T>(bytes, n) is Ok,
    ensures
        ({
            let parsed = parse_all::<T>(bytes, n)->Ok_0;
            &&& parsed.value.len() == n
            &&& bytes == encode_all::<T>(parsed.value) + parsed.rest
            &&& all_fit::<T>(parsed.value)
        }),
    decreases n,
{
    let parsed = parse_all::<T>(bytes, n)->Ok_0;
    if n == 0 {
        assert(encode_all::<T>(parsed.value) + parsed.rest =~= bytes);
    } else {
        T::canonical(bytes);
        let first = T::parse(bytes)->Ok_0;
        lemma_all_canonical::<T>(first.rest, (n - 1) as nat);
        let others = parse_all::<T>(first.rest, (n - 1) as nat)->Ok_0;
        assert(parsed.value.skip(1) =~= others.value);
        assert(encode_all::<T>(parsed.value) + parsed.rest =~= T::encoding(first.value) + (encode_all::<T>(others.value)
            + others.rest));
        assert forall|i: int| 0 <= i < parsed.value.len() implies T::fits(#[trigger] parsed.value[i]) by {
            if i > 0 {
                assert(parsed.value[i] == others.value[i - 1]);
            }
        }
    }
}

proof fn lemma_encode_push<T: Codec>(values: Seq<T::V>, value: T::V)
    ensures
        encode_all::<T>(values.push(value)) == encode_all::<T>(values) + T::encoding(value),
    decreases values.len(),
{
    let all = values.push(value);
    if values.len() == 0 {
        assert(all.skip(1) =~= Seq::empty());
        assert(encode_all::<T>(all.skip(1)) =~= Seq::empty());
        assert(encode_all::<T>(all) =~= encode_all::<T>(values) + T::encoding(value));
    } else {
        assert(all.skip(1) =~= values.skip(1).push(value));
        lemma_encode_push::<T>(values.skip(1), value);
        assert(encode_all::<T>(all) =~= encode_all::<T>(values) + T::encoding(value));
    }
}

fn read_all<T: Codec>(reader: &mut Reader<'_>, n: usize) -> (r: Result<Vec<T>, DecodeError>)
    ensures
        match r {
            Ok(values) => parse_all::<T>(old(reader)@, n as nat) == Ok::<_, DecodeError>(
                Parsed { value: values.deep_view(), rest: final(reader)@ },
            ),
            Err(error) => parse_all::<T>(old(reader)@, n as nat) == Err::<Parsed<Seq<T::V>>, _>(error),
        },
{
    let ghost start = reader@;
    let mut values: Vec<T> = Vec::new();
    proof {
        assert(values.deep_view() =~= Seq::<T::V>::empty());
        if parse_all::<T>(start, n as nat) is Ok {
            assert(Seq::<T::V>::empty() + parse_all::<T>(start, n as nat)->Ok_0.value =~= parse_all::<T>(
                start,
                n as nat,
            )->Ok_0.value);
        }
    }
    for i in 0..n
        invariant
            start == old(reader)@,
            match parse_all::<T>(reader@, (n - i) as nat) {
                Ok(others) => parse_all::<T>(start, n as nat) == Ok::<_, DecodeError>(
                    Parsed { value: values.deep_view() + others.value, rest: others.rest },
                ),
                Err(error) => parse_all::<T>(start, n as nat) == Err::<Parsed<Seq<T::V>>, _>(error),
            },
    {
        let ghost at = reader@;
        let ghost before = values.deep_view();
        match T::read(reader) {
            Err(error) => {
                proof {
                    assert(parse_all::<T>(at, (n - i) as nat) == Err::<Parsed<Seq<T::V>>, _>(error));
                }
                return Err(error);
            },
            Ok(value) => {
                let ghost first = value.deep_view();
                values.push(value);
                proof {
                    assert(values.deep_view() =~= before.push(first));
                    let left = (n - i - 1) as nat;
                    if parse_all::<T>(reader@, left) is Ok {
                        let others = parse_all::<T>(reader@, left)->Ok_0.value;
                        assert(before + (seq![first] + others) =~= before.push(first) + others);
                    }
                }
            },
        }
    }
    proof {
        assert(values.deep_view() + Seq::<T::V>::empty() =~= values.deep_view());
    }
    Ok(values)
}

/// The number of values, then the values.
impl<T: Codec> Codec for Vec<T> {
    open spec fn encoding(value: Seq<T::V>) -> Seq<u8> {
        usize::encoding(value.len() as usize) + encode_all::<T>(value)
    }

    open spec fn parse(bytes: Seq<u8>) -> Result<Parsed<Seq<T::V>>, DecodeError> {
        match usize::parse(bytes) {
            Ok(count) => parse_all::<T>(count.rest, count.value as nat),
            Err(error) => Err(error),
        }
    }

    open spec fn fits(value: Seq<T::V>) -> bool {
        value.len() <= usize::MAX && all_fit::<T>(value)
    }

    fn write(&self, out: &mut Vec<u8>) {
        let ghost before = out@;
        let ghost all = self.deep_view();
        let n: usize = self.len();
        n.write(out);
        let ghost head = out@;
        for i in 0..n
            invariant
                n == self@.len(),
                all == self.deep_view(),
                out@ == head + encode_all::<T>(all.take(i as int)),
                forall|j: int| 0 <= j < i ==> T::fits(#[trigger] all[j]),
        {
            self[i].write(out);
            proof {
                assert(all.take(i + 1) =~= all.take(i as int).push(all[i as int]));
                lemma_encode_push::<T>(all.take(i as int), all[i as int]);
                assert(out@ =~= head + encode_all::<T>(all.take(i + 1)));
            }
        }
        proof {
            assert(all.take(n as int) =~= all);
            assert(out@ =~= before + Self::encoding(all));
        }
    }

    fn read(reader: &mut Reader<'_>) -> (r: Result<Self, DecodeError>) {
        match usize::read(reader) {
            Ok(count) => read_all(reader, count),
            Err(error) => Err(error),
        }
    }

    proof fn round_trip(value: Seq<T::V>, rest: Seq<u8>) {
        usize::round_trip(value.len() as usize, encode_all::<T>(value) + rest);
        assert(Self::encoding(value) + rest =~= usize::encoding(value.len() as usize) + (encode_all::<T>(value) + rest));
        lemma_all_round_trip::<T>(value, rest);
    }

    proof fn canonical(bytes: Seq<u8>) {
        usize::canonical(bytes);
        let count = usize::parse(bytes)->Ok_0;
        lemma_all_canonical::<T>(count.rest, count.value as nat);
        let parsed = parse_all::<T>(count.rest, count.value as nat)->Ok_0;
        lemma_join(usize::encoding(count.value), encode_all::<T>(parsed.value), parsed.rest);
    }
}

/// A one and the value, or a zero.
impl<T: Codec> Codec for Option<T> {
    open spec fn encoding(value: Option<T::V>) -> Seq<u8> {
        match value {
            Some(value) => u8::encoding(1) + T::encoding(value),
            None => u8::encoding(0),
        }
    }

    open spec fn parse(bytes: Seq<u8>) -> Result<Parsed<Option<T::V>>, DecodeError> {
        match u8::parse(bytes) {
            Ok(tag) => if tag.value == 0 {
                Ok(Parsed { value: None, rest: tag.rest })
            } else if tag.value == 1 {
                match T::parse(tag.rest) {
                    Ok(parsed) => Ok(Parsed { value: Some(parsed.value), rest: parsed.rest }),
                    Err(error) => Err(error),
                }
            } else {
                Err(DecodeError::InvalidData)
            },
            Err(error) => Err(error),
        }
    }

    open spec fn fits(value: Option<T::V>) -> bool {
        value is Some ==> T::fits(value->0)
    }

    fn write(&self, out: &mut Vec<u8>) {
        let ghost before = out@;
        match self {
            Some(value) => {
                let tag: u8 = 1;
                tag.write(out);
                value.write(out);
            },
            None => {
                let tag: u8 = 0;
                tag.write(out);
            },
        }
        proof {
            assert(out@ =~= before + Self::encoding(self.deep_view()));
        }
    }

    fn read(reader: &mut Reader<'_>) -> (r: Result<Self, DecodeError>) {
        match u8::read(reader) {
            Ok(tag) => if tag == 0 {
                Ok(None)
            } else if tag == 1 {
                match T::read(reader) {
                    Ok(value) => Ok(Some(value)),
                    Err(error) => Err(error),
                }
            } else {
                Err(DecodeError::InvalidData)
            },
            Err(error) => Err(error),
        }
    }

    proof fn round_trip(value: Option<T::V>, rest: Seq<u8>) {
        match value {
            Some(inner) => {
                u8::round_trip(1, T::encoding(inner) + rest);
                T::round_trip(inner, rest);
                assert(Self::encoding(value) + rest =~= u8::encoding(1) + (T::encoding(inner) + rest));
            },
            None => {
                u8::round_trip(0, rest);
            },
        }
    }

    proof fn canonical(bytes: Seq<u8>) {
        u8::canonical(bytes);
        let tag = u8::parse(bytes)->Ok_0;
        if tag.value == 1 {
            T::canonical(tag.rest);
            let parsed = T::parse(tag.rest)->Ok_0;
            assert(u8::encoding(1) + T::encoding(parsed.value) + parsed.rest =~= u8::encoding(1) + (T::encoding(
                parsed.value,
            ) + parsed.rest));
        }
    }
}

}
