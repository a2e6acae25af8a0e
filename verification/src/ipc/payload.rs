//! What crosses a process boundary.
//!
//! A contract describes the representation of values on the wire. It is settled before
//! either direction is mapped.
use super::wire::{
    get_ordered, le_bytes, le_limit, le_value, lemma_arranged_twice, lemma_le_limits, lemma_value_of_le,
    put_ordered, ByteOrder,
};
use super::Fault;
use crate::cursor::power_of_two;
use crate::ipc::stream::is_power_of_two;
use core::marker::PhantomData;
use vstd::layout::align_of;
use vstd::prelude::*;

verus! {

/// Process-boundary payload representation.
#[derive(Clone, Copy, Debug, PartialEq, Eq, Structural)]
pub enum PayloadKind {
    /// Raw byte-stream payloads.
    Bytes,
    /// Fixed-layout plain-data payloads.
    Pod,
    /// Values serialized by an explicit versioned codec.
    Codec,
}

impl PayloadKind {
    /// The number that stands for this kind.
    pub open spec fn number(&self) -> u8 {
        match self {
            PayloadKind::Bytes => 1,
            PayloadKind::Pod => 2,
            PayloadKind::Codec => 3,
        }
    }

    /// The kind that a number stands for.
    pub open spec fn numbered(code: int) -> Option<PayloadKind> {
        if code == 1 {
            Some(PayloadKind::Bytes)
        } else if code == 2 {
            Some(PayloadKind::Pod)
        } else if code == 3 {
            Some(PayloadKind::Codec)
        } else {
            None
        }
    }

    /// The number that stands for this kind.
    pub fn code(self) -> (code: u8)
        ensures
            code == self.number(),
    {
        match self {
            PayloadKind::Bytes => 1,
            PayloadKind::Pod => 2,
            PayloadKind::Codec => 3,
        }
    }

    /// The kind that a number stands for.
    pub fn from_code(code: u8) -> (kind: Option<PayloadKind>)
        ensures
            kind == PayloadKind::numbered(code as int),
    {
        match code {
            1 => Some(PayloadKind::Bytes),
            2 => Some(PayloadKind::Pod),
            3 => Some(PayloadKind::Codec),
            _ => None,
        }
    }
}

/// The payload contract authenticated alongside a duplex's region handles.
#[derive(Clone, Copy, Debug, PartialEq, Eq, Structural)]
pub struct PayloadContract {
    pub(super) kind: PayloadKind,
    pub(super) schema_id: u64,
    pub(super) element_size: usize,
    pub(super) element_align: usize,
}

impl PayloadContract {
    /// The representation.
    pub closed spec fn form(&self) -> PayloadKind {
        self.kind
    }

    /// The schema.
    pub closed spec fn schema(&self) -> u64 {
        self.schema_id
    }

    /// The bytes of one element.
    pub closed spec fn size(&self) -> usize {
        self.element_size
    }

    /// The alignment of one element.
    pub closed spec fn align(&self) -> usize {
        self.element_align
    }

    /// A contract is its four parts.
    pub proof fn lemma_parts(a: PayloadContract, b: PayloadContract)
        ensures
            a == b <==> a.form() == b.form() && a.schema() == b.schema() && a.size() == b.size()
                && a.align() == b.align(),
    {
    }

    /// Whether the contract does not contradict itself.
    pub open spec fn valid(&self) -> bool {
        sound_contract(self.form(), self.schema() as int, self.size() as int, self.align() as int)
    }

    /// Construct the canonical raw-byte payload contract.
    pub fn bytes() -> (contract: Self)
        ensures
            contract.form() == PayloadKind::Bytes,
            contract.schema() == 0,
            contract.size() == 1,
            contract.align() == 1,
            contract.valid(),
    {
        PayloadContract {
            kind: PayloadKind::Bytes,
            schema_id: 0,
            element_size: 1,
            element_align: 1,
        }
    }

    /// Construct the POD contract declared by `P`.
    pub fn pod<P: IpcPod>() -> (contract: Self)
        ensures
            contract.form() == PayloadKind::Pod,
            contract.schema() == P::schema(),
            contract.size() == P::width(),
            contract.align() == align_of::<P>(),
    {
        PayloadContract {
            kind: PayloadKind::Pod,
            schema_id: P::schema_id(),
            element_size: P::size(),
            element_align: core::mem::align_of::<P>(),
        }
    }

    /// Construct the encoded contract declared by codec `C`.
    pub fn codec<T, C: IpcCodec<T>>() -> (contract: Self)
        ensures
            contract.form() == PayloadKind::Codec,
            contract.schema() == C::schema(),
            contract.size() == 0,
            contract.align() == 0,
    {
        PayloadContract {
            kind: PayloadKind::Codec,
            schema_id: C::schema_id(),
            element_size: 0,
            element_align: 0,
        }
    }

    /// Rebuild a contract from its parts.
    pub fn from_parts(
        kind: PayloadKind,
        schema_id: u64,
        element_size: usize,
        element_align: usize,
    ) -> (contract: Self)
        ensures
            contract.form() == kind,
            contract.schema() == schema_id,
            contract.size() == element_size,
            contract.align() == element_align,
    {
        PayloadContract { kind, schema_id, element_size, element_align }
    }

    /// Return the payload representation kind.
    pub fn kind(self) -> (kind: PayloadKind)
        ensures
            kind == self.form(),
    {
        self.kind
    }

    /// Return the authenticated schema identifier.
    pub fn schema_id(self) -> (id: u64)
        ensures
            id == self.schema(),
    {
        self.schema_id
    }

    /// Return the POD element size, or zero for encoded payloads.
    pub fn element_size(self) -> (size: usize)
        ensures
            size == self.size(),
    {
        self.element_size
    }

    /// Return the POD element alignment, or zero for encoded payloads.
    pub fn element_align(self) -> (align: usize)
        ensures
            align == self.align(),
    {
        self.element_align
    }

    /// Whether the contract does not contradict itself.
    pub fn validate(self) -> (result: Result<(), Fault>)
        ensures
            result is Ok <==> self.valid(),
            result matches Err(fault) ==> fault == Fault::PayloadContract,
    {
        let valid: bool = match self.kind {
            PayloadKind::Bytes => self.schema_id == 0 && self.element_size == 1
                && self.element_align == 1,
            PayloadKind::Pod => self.schema_id != 0 && self.element_size != 0 && is_power_of_two(
                self.element_align,
            ),
            PayloadKind::Codec => self.schema_id != 0 && self.element_size == 0
                && self.element_align == 0,
        };
        if valid {
            Ok(())
        } else {
            Err(Fault::PayloadContract)
        }
    }
}

/// Whether the parts of a contract do not contradict each other.
pub open spec fn sound_contract(kind: PayloadKind, schema: int, size: int, align: int) -> bool {
    match kind {
        PayloadKind::Bytes => schema == 0 && size == 1 && align == 1,
        PayloadKind::Pod => schema != 0 && size != 0 && align > 0 && power_of_two(align),
        PayloadKind::Codec => schema != 0 && size == 0 && align == 0,
    }
}

/// The contract that a plain-data type declares is valid whenever its identifier and its width
/// are not zero, whatever the width: the alignment of a type is always a power of two.
pub proof fn law_plain_data_contracts_are_valid<P: IpcPod>(contract: PayloadContract)
    requires
        contract.form() == PayloadKind::Pod,
        contract.schema() == P::schema(),
        contract.size() == P::width(),
        contract.align() == align_of::<P>(),
    ensures
        contract.valid() <==> P::schema() != 0 && P::width() > 0,
{
    lemma_alignments_are_powers::<P>();
}

proof fn lemma_alignments_are_powers<P>()
    ensures
        align_of::<P>() > 0,
        power_of_two(align_of::<P>() as int),
{
    broadcast use vstd::layout::group_align_properties;

    let align = align_of::<P>() as int;
    assert(vstd::arithmetic::power2::is_pow2(align));
    vstd::arithmetic::power2::is_pow2_equiv(align);
    let e = choose|e: nat| vstd::arithmetic::power::pow(2, e) == align;
    vstd::arithmetic::power2::lemma_pow2(e);
}

/// The contract of an encoding is valid whenever its identifier is not zero, and that of raw
/// bytes always is.
pub proof fn law_encoded_and_raw_contracts_are_valid(contract: PayloadContract)
    requires
        contract.form() == PayloadKind::Codec && contract.size() == 0 && contract.align() == 0
            || contract.form() == PayloadKind::Bytes && contract.size() == 1 && contract.align()
            == 1,
    ensures
        contract.form() == PayloadKind::Codec ==> (contract.valid() <==> contract.schema() != 0),
        contract.form() == PayloadKind::Bytes ==> (contract.valid() <==> contract.schema() == 0),
{
}

/// A valid contract tells how long its elements are: raw bytes are single, plain data has some
/// width and an alignment that halves evenly down to one, and an encoding has neither.
pub proof fn law_valid_contracts_tell_their_elements(contract: PayloadContract)
    requires
        contract.valid(),
    ensures
        contract.size() == 0 <==> contract.form() == PayloadKind::Codec,
        contract.align() == 0 <==> contract.form() == PayloadKind::Codec,
        contract.schema() == 0 <==> contract.form() == PayloadKind::Bytes,
        contract.form() == PayloadKind::Bytes ==> contract.size() == 1 && contract.align() == 1,
        contract.form() == PayloadKind::Pod ==> exists|e: nat| #[trigger]
            vstd::arithmetic::power2::pow2(e) == contract.align(),
{
}

/// Kinds and their numbers stand for each other: the number of a kind tells the kind, and a
/// number that stands for a kind is the number of that kind alone.
pub proof fn law_kinds_have_numbers_of_their_own(kind: PayloadKind, code: int)
    ensures
        PayloadKind::numbered(kind.number() as int) == Some(kind),
        PayloadKind::numbered(code) == Some(kind) ==> code == kind.number(),
        PayloadKind::numbered(code) is None <==> !(1 <= code <= 3),
{
}

/// A plain-data type whose values are a fixed number of bytes, every combination of
/// which is a value. A value crosses the boundary as it lies in memory: both sides run on
/// one machine, and the byte order is that machine's.
///
/// The identifier is stable and not zero, and changes whenever the layout or the meaning
/// changes. The specifications have bodies that say nothing, so that code which is not
/// verified can implement the trait too.
pub trait IpcPod: Copy {
    /// The identifier of the layout.
    open spec fn schema() -> u64 {
        arbitrary::<(PhantomData<Self>, u64)>().1
    }

    /// The bytes of a value.
    open spec fn width() -> nat {
        arbitrary::<(PhantomData<Self>, nat)>().1
    }

    /// The bytes that a value is made of on a machine of some byte order.
    open spec fn image(self, order: ByteOrder) -> Seq<u8> {
        arbitrary::<spec_fn(Self, ByteOrder) -> Seq<u8>>()(self, order)
    }

    /// Stable nonzero identifier for this layout.
    fn schema_id() -> (id: u64)
        ensures
            id == Self::schema(),
    ;

    /// The bytes of a value.
    fn size() -> (size: usize)
        ensures
            size == Self::width(),
    ;

    /// Append the bytes of a value on a machine of some byte order.
    fn encode(self, order: ByteOrder, out: &mut Vec<u8>)
        ensures
            final(out)@ == old(out)@ + self.image(order),
            self.image(order).len() == Self::width(),
    ;

    /// The value of some bytes on a machine of some byte order.
    fn decode(bytes: &[u8], order: ByteOrder) -> (value: Self)
        requires
            bytes@.len() == Self::width(),
        ensures
            value.image(order) == bytes@,
    ;
}

/// Whether all values have the same number of bytes, and different values have different
/// bytes, whatever the byte order.
pub open spec fn faithful<P: IpcPod>() -> bool {
    &&& forall|a: P, order: ByteOrder| (#[trigger] a.image(order)).len() == P::width()
    &&& forall|a: P, b: P, order: ByteOrder| #[trigger]
        a.image(order) == #[trigger] b.image(order) ==> a == b
}

/// A stateless, explicitly versioned process-boundary codec.
///
/// The identifier stands for both the payload schema and the encoding. It is stable and
/// not zero. Codec work happens outside the shared-memory hot loop. The specifications
/// have bodies that say nothing, so that code which is not verified can implement the trait
/// too.
pub trait IpcCodec<T>: Sized {
    /// What the codec says of a failure.
    type Error;

    /// The identifier of schema and encoding.
    open spec fn schema() -> u64 {
        arbitrary::<(PhantomData<(Self, T)>, u64)>().1
    }

    /// Whether encoding a value may end like this: with its bytes, or with a failure.
    open spec fn encodes(value: T, outcome: Result<Seq<u8>, Self::Error>) -> bool {
        true
    }

    /// Whether decoding some bytes may end like this: with their value, or with a failure.
    open spec fn decodes(input: Seq<u8>, outcome: Result<T, Self::Error>) -> bool {
        true
    }

    /// Stable nonzero identifier of schema and encoding.
    fn schema_id() -> (id: u64)
        ensures
            id == Self::schema(),
    ;

    /// Append the encoding of a value.
    fn encode(value: &T, output: &mut Vec<u8>) -> (result: Result<(), Self::Error>)
        ensures
            result is Ok ==> final(output)@.len() >= old(output)@.len() && final(output)@.take(
                old(output)@.len() as int,
            ) == old(output)@ && Self::encodes(
                *value,
                Ok(final(output)@.skip(old(output)@.len() as int)),
            ),
            result matches Err(error) ==> Self::encodes(*value, Err(error)),
    ;

    /// Decode one value from a complete encoded byte sequence.
    fn decode(input: &[u8]) -> (result: Result<T, Self::Error>)
        ensures
            Self::decodes(input@, result),
    ;
}

impl IpcPod for u8 {
    open spec fn schema() -> u64 {
        0x5053_0000_0000_0001
    }

    open spec fn width() -> nat {
        1
    }

    open spec fn image(self, order: ByteOrder) -> Seq<u8> {
        order.arranged(le_bytes(self as nat, 1))
    }

    fn schema_id() -> (id: u64) {
        0x5053_0000_0000_0001
    }

    fn size() -> (size: usize) {
        1
    }

    fn encode(self, order: ByteOrder, out: &mut Vec<u8>) {
        put_ordered(out, self as u128, 1, order);
    }

    fn decode(bytes: &[u8], order: ByteOrder) -> (value: Self) {
        proof {
            lemma_le_limits();
        }
        get_ordered(bytes, order) as u8
    }
}

impl IpcPod for i8 {
    open spec fn schema() -> u64 {
        0x5053_0000_0000_0002
    }

    open spec fn width() -> nat {
        1
    }

    open spec fn image(self, order: ByteOrder) -> Seq<u8> {
        order.arranged(
            le_bytes(
                (if self >= 0 {
                    self as int
                } else {
                    self + 0x100
                }) as nat,
                1,
            ),
        )
    }

    fn schema_id() -> (id: u64) {
        0x5053_0000_0000_0002
    }

    fn size() -> (size: usize) {
        1
    }

    fn encode(self, order: ByteOrder, out: &mut Vec<u8>) {
        if self >= 0 {
            put_ordered(out, self as u128, 1, order);
        } else {
            let upper: u128 = (self + i8::MAX + 1) as u128;
            put_ordered(out, upper + 0x80, 1, order);
        }
    }

    fn decode(bytes: &[u8], order: ByteOrder) -> (value: Self) {
        proof {
            lemma_le_limits();
        }
        let value: u128 = get_ordered(bytes, order);
        if value < 0x80 {
            value as i8
        } else {
            (value - 0x80) as i8 - i8::MAX - 1
        }
    }
}

impl IpcPod for u16 {
    open spec fn schema() -> u64 {
        0x5053_0000_0000_0003
    }

    open spec fn width() -> nat {
        2
    }

    open spec fn image(self, order: ByteOrder) -> Seq<u8> {
        order.arranged(le_bytes(self as nat, 2))
    }

    fn schema_id() -> (id: u64) {
        0x5053_0000_0000_0003
    }

    fn size() -> (size: usize) {
        2
    }

    fn encode(self, order: ByteOrder, out: &mut Vec<u8>) {
        put_ordered(out, self as u128, 2, order);
    }

    fn decode(bytes: &[u8], order: ByteOrder) -> (value: Self) {
        proof {
            lemma_le_limits();
        }
        get_ordered(bytes, order) as u16
    }
}

impl IpcPod for i16 {
    open spec fn schema() -> u64 {
        0x5053_0000_0000_0004
    }

    open spec fn width() -> nat {
        2
    }

    open spec fn image(self, order: ByteOrder) -> Seq<u8> {
        order.arranged(
            le_bytes(
                (if self >= 0 {
                    self as int
                } else {
                    self + 0x1_0000
                }) as nat,
                2,
            ),
        )
    }

    fn schema_id() -> (id: u64) {
        0x5053_0000_0000_0004
    }

    fn size() -> (size: usize) {
        2
    }

    fn encode(self, order: ByteOrder, out: &mut Vec<u8>) {
        if self >= 0 {
            put_ordered(out, self as u128, 2, order);
        } else {
            let upper: u128 = (self + i16::MAX + 1) as u128;
            put_ordered(out, upper + 0x8000, 2, order);
        }
    }

    fn decode(bytes: &[u8], order: ByteOrder) -> (value: Self) {
        proof {
            lemma_le_limits();
        }
        let value: u128 = get_ordered(bytes, order);
        if value < 0x8000 {
            value as i16
        } else {
            (value - 0x8000) as i16 - i16::MAX - 1
        }
    }
}

impl IpcPod for u32 {
    open spec fn schema() -> u64 {
        0x5053_0000_0000_0005
    }

    open spec fn width() -> nat {
        4
    }

    open spec fn image(self, order: ByteOrder) -> Seq<u8> {
        order.arranged(le_bytes(self as nat, 4))
    }

    fn schema_id() -> (id: u64) {
        0x5053_0000_0000_0005
    }

    fn size() -> (size: usize) {
        4
    }

    fn encode(self, order: ByteOrder, out: &mut Vec<u8>) {
        put_ordered(out, self as u128, 4, order);
    }

    fn decode(bytes: &[u8], order: ByteOrder) -> (value: Self) {
        proof {
            lemma_le_limits();
        }
        get_ordered(bytes, order) as u32
    }
}

impl IpcPod for i32 {
    open spec fn schema() -> u64 {
        0x5053_0000_0000_0006
    }

    open spec fn width() -> nat {
        4
    }

    open spec fn image(self, order: ByteOrder) -> Seq<u8> {
        order.arranged(
            le_bytes(
                (if self >= 0 {
                    self as int
                } else {
                    self + 0x1_0000_0000
                }) as nat,
                4,
            ),
        )
    }

    fn schema_id() -> (id: u64) {
        0x5053_0000_0000_0006
    }

    fn size() -> (size: usize) {
        4
    }

    fn encode(self, order: ByteOrder, out: &mut Vec<u8>) {
        if self >= 0 {
            put_ordered(out, self as u128, 4, order);
        } else {
            let upper: u128 = (self + i32::MAX + 1) as u128;
            put_ordered(out, upper + 0x8000_0000, 4, order);
        }
    }

    fn decode(bytes: &[u8], order: ByteOrder) -> (value: Self) {
        proof {
            lemma_le_limits();
        }
        let value: u128 = get_ordered(bytes, order);
        if value < 0x8000_0000 {
            value as i32
        } else {
            (value - 0x8000_0000) as i32 - i32::MAX - 1
        }
    }
}

impl IpcPod for u64 {
    open spec fn schema() -> u64 {
        0x5053_0000_0000_0007
    }

    open spec fn width() -> nat {
        8
    }

    open spec fn image(self, order: ByteOrder) -> Seq<u8> {
        order.arranged(le_bytes(self as nat, 8))
    }

    fn schema_id() -> (id: u64) {
        0x5053_0000_0000_0007
    }

    fn size() -> (size: usize) {
        8
    }

    fn encode(self, order: ByteOrder, out: &mut Vec<u8>) {
        put_ordered(out, self as u128, 8, order);
    }

    fn decode(bytes: &[u8], order: ByteOrder) -> (value: Self) {
        proof {
            lemma_le_limits();
        }
        get_ordered(bytes, order) as u64
    }
}

impl IpcPod for i64 {
    open spec fn schema() -> u64 {
        0x5053_0000_0000_0008
    }

    open spec fn width() -> nat {
        8
    }

    open spec fn image(self, order: ByteOrder) -> Seq<u8> {
        order.arranged(
            le_bytes(
                (if self >= 0 {
                    self as int
                } else {
                    self + 0x1_0000_0000_0000_0000
                }) as nat,
                8,
            ),
        )
    }

    fn schema_id() -> (id: u64) {
        0x5053_0000_0000_0008
    }

    fn size() -> (size: usize) {
        8
    }

    fn encode(self, order: ByteOrder, out: &mut Vec<u8>) {
        if self >= 0 {
            put_ordered(out, self as u128, 8, order);
        } else {
            let upper: u128 = (self + i64::MAX + 1) as u128;
            put_ordered(out, upper + 0x8000_0000_0000_0000, 8, order);
        }
    }

    fn decode(bytes: &[u8], order: ByteOrder) -> (value: Self) {
        proof {
            lemma_le_limits();
        }
        let value: u128 = get_ordered(bytes, order);
        if value < 0x8000_0000_0000_0000 {
            value as i64
        } else {
            (value - 0x8000_0000_0000_0000) as i64 - i64::MAX - 1
        }
    }
}

impl IpcPod for u128 {
    open spec fn schema() -> u64 {
        0x5053_0000_0000_0009
    }

    open spec fn width() -> nat {
        16
    }

    open spec fn image(self, order: ByteOrder) -> Seq<u8> {
        order.arranged(le_bytes(self as nat, 16))
    }

    fn schema_id() -> (id: u64) {
        0x5053_0000_0000_0009
    }

    fn size() -> (size: usize) {
        16
    }

    fn encode(self, order: ByteOrder, out: &mut Vec<u8>) {
        put_ordered(out, self, 16, order);
    }

    fn decode(bytes: &[u8], order: ByteOrder) -> (value: Self) {
        proof {
            reveal_with_fuel(le_limit, 17);
        }
        get_ordered(bytes, order)
    }
}

impl IpcPod for i128 {
    open spec fn schema() -> u64 {
        0x5053_0000_0000_000a
    }

    open spec fn width() -> nat {
        16
    }

    open spec fn image(self, order: ByteOrder) -> Seq<u8> {
        order.arranged(
            le_bytes(
                (if self >= 0 {
                    self as int
                } else {
                    self + 0x1_0000_0000_0000_0000_0000_0000_0000_0000
                }) as nat,
                16,
            ),
        )
    }

    fn schema_id() -> (id: u64) {
        0x5053_0000_0000_000a
    }

    fn size() -> (size: usize) {
        16
    }

    fn encode(self, order: ByteOrder, out: &mut Vec<u8>) {
        if self >= 0 {
            put_ordered(out, self as u128, 16, order);
        } else {
            let upper: u128 = (self + i128::MAX + 1) as u128;
            put_ordered(out, upper + 0x8000_0000_0000_0000_0000_0000_0000_0000, 16, order);
        }
    }

    fn decode(bytes: &[u8], order: ByteOrder) -> (value: Self) {
        proof {
            reveal_with_fuel(le_limit, 17);
        }
        let value: u128 = get_ordered(bytes, order);
        if value < 0x8000_0000_0000_0000_0000_0000_0000_0000 {
            value as i128
        } else {
            (value - 0x8000_0000_0000_0000_0000_0000_0000_0000) as i128 - i128::MAX - 1
        }
    }
}

/// The bytes of a value of this type tell the value.
pub proof fn law_u8_is_faithful()
    ensures
        faithful::<u8>(),
{
    lemma_le_limits();
    assert forall|a: u8, order: ByteOrder| (#[trigger] a.image(order)).len() == u8::width() by {
        lemma_value_of_le(a as nat, 1);
        lemma_arranged_twice(order, le_bytes(a as nat, 1));
    }
    assert forall|a: u8, b: u8, order: ByteOrder| #[trigger]
        a.image(order) == #[trigger] b.image(order) implies a == b by {
        lemma_value_of_le(a as nat, 1);
        lemma_value_of_le(b as nat, 1);
        lemma_arranged_twice(order, le_bytes(a as nat, 1));
        lemma_arranged_twice(order, le_bytes(b as nat, 1));
    }
}

/// The bytes of a value of this type tell the value.
pub proof fn law_i8_is_faithful()
    ensures
        faithful::<i8>(),
{
    lemma_le_limits();
    assert forall|a: i8, order: ByteOrder| (#[trigger] a.image(order)).len() == i8::width() by {
        lemma_value_of_le((if a >= 0 { a as int } else { a + 0x100 }) as nat, 1);
        lemma_arranged_twice(order, le_bytes((if a >= 0 { a as int } else { a + 0x100 }) as nat, 1));
    }
    assert forall|a: i8, b: i8, order: ByteOrder| #[trigger]
        a.image(order) == #[trigger] b.image(order) implies a == b by {
        lemma_value_of_le((if a >= 0 { a as int } else { a + 0x100 }) as nat, 1);
        lemma_value_of_le((if b >= 0 { b as int } else { b + 0x100 }) as nat, 1);
        lemma_arranged_twice(order, le_bytes((if a >= 0 { a as int } else { a + 0x100 }) as nat, 1));
        lemma_arranged_twice(order, le_bytes((if b >= 0 { b as int } else { b + 0x100 }) as nat, 1));
    }
}

/// The bytes of a value of this type tell the value.
pub proof fn law_u16_is_faithful()
    ensures
        faithful::<u16>(),
{
    lemma_le_limits();
    assert forall|a: u16, order: ByteOrder| (#[trigger] a.image(order)).len() == u16::width() by {
        lemma_value_of_le(a as nat, 2);
        lemma_arranged_twice(order, le_bytes(a as nat, 2));
    }
    assert forall|a: u16, b: u16, order: ByteOrder| #[trigger]
        a.image(order) == #[trigger] b.image(order) implies a == b by {
        lemma_value_of_le(a as nat, 2);
        lemma_value_of_le(b as nat, 2);
        lemma_arranged_twice(order, le_bytes(a as nat, 2));
        lemma_arranged_twice(order, le_bytes(b as nat, 2));
    }
}

/// The bytes of a value of this type tell the value.
pub proof fn law_i16_is_faithful()
    ensures
        faithful::<i16>(),
{
    lemma_le_limits();
    assert forall|a: i16, order: ByteOrder| (#[trigger] a.image(order)).len() == i16::width() by {
        lemma_value_of_le((if a >= 0 { a as int } else { a + 0x1_0000 }) as nat, 2);
        lemma_arranged_twice(order, le_bytes((if a >= 0 { a as int } else { a + 0x1_0000 }) as nat, 2));
    }
    assert forall|a: i16, b: i16, order: ByteOrder| #[trigger]
        a.image(order) == #[trigger] b.image(order) implies a == b by {
        lemma_value_of_le((if a >= 0 { a as int } else { a + 0x1_0000 }) as nat, 2);
        lemma_value_of_le((if b >= 0 { b as int } else { b + 0x1_0000 }) as nat, 2);
        lemma_arranged_twice(order, le_bytes((if a >= 0 { a as int } else { a + 0x1_0000 }) as nat, 2));
        lemma_arranged_twice(order, le_bytes((if b >= 0 { b as int } else { b + 0x1_0000 }) as nat, 2));
    }
}

/// The bytes of a value of this type tell the value.
pub proof fn law_u32_is_faithful()
    ensures
        faithful::<u32>(),
{
    lemma_le_limits();
    assert forall|a: u32, order: ByteOrder| (#[trigger] a.image(order)).len() == u32::width() by {
        lemma_value_of_le(a as nat, 4);
        lemma_arranged_twice(order, le_bytes(a as nat, 4));
    }
    assert forall|a: u32, b: u32, order: ByteOrder| #[trigger]
        a.image(order) == #[trigger] b.image(order) implies a == b by {
        lemma_value_of_le(a as nat, 4);
        lemma_value_of_le(b as nat, 4);
        lemma_arranged_twice(order, le_bytes(a as nat, 4));
        lemma_arranged_twice(order, le_bytes(b as nat, 4));
    }
}

/// The bytes of a value of this type tell the value.
pub proof fn law_i32_is_faithful()
    ensures
        faithful::<i32>(),
{
    lemma_le_limits();
    assert forall|a: i32, order: ByteOrder| (#[trigger] a.image(order)).len() == i32::width() by {
        lemma_value_of_le((if a >= 0 { a as int } else { a + 0x1_0000_0000 }) as nat, 4);
        lemma_arranged_twice(order, le_bytes((if a >= 0 { a as int } else { a + 0x1_0000_0000 }) as nat, 4));
    }
    assert forall|a: i32, b: i32, order: ByteOrder| #[trigger]
        a.image(order) == #[trigger] b.image(order) implies a == b by {
        lemma_value_of_le((if a >= 0 { a as int } else { a + 0x1_0000_0000 }) as nat, 4);
        lemma_value_of_le((if b >= 0 { b as int } else { b + 0x1_0000_0000 }) as nat, 4);
        lemma_arranged_twice(order, le_bytes((if a >= 0 { a as int } else { a + 0x1_0000_0000 }) as nat, 4));
        lemma_arranged_twice(order, le_bytes((if b >= 0 { b as int } else { b + 0x1_0000_0000 }) as nat, 4));
    }
}

/// The bytes of a value of this type tell the value.
pub proof fn law_u64_is_faithful()
    ensures
        faithful::<u64>(),
{
    lemma_le_limits();
    assert forall|a: u64, order: ByteOrder| (#[trigger] a.image(order)).len() == u64::width() by {
        lemma_value_of_le(a as nat, 8);
        lemma_arranged_twice(order, le_bytes(a as nat, 8));
    }
    assert forall|a: u64, b: u64, order: ByteOrder| #[trigger]
        a.image(order) == #[trigger] b.image(order) implies a == b by {
        lemma_value_of_le(a as nat, 8);
        lemma_value_of_le(b as nat, 8);
        lemma_arranged_twice(order, le_bytes(a as nat, 8));
        lemma_arranged_twice(order, le_bytes(b as nat, 8));
    }
}

/// The bytes of a value of this type tell the value.
pub proof fn law_i64_is_faithful()
    ensures
        faithful::<i64>(),
{
    lemma_le_limits();
    assert forall|a: i64, order: ByteOrder| (#[trigger] a.image(order)).len() == i64::width() by {
        lemma_value_of_le((if a >= 0 { a as int } else { a + 0x1_0000_0000_0000_0000 }) as nat, 8);
        lemma_arranged_twice(order, le_bytes((if a >= 0 { a as int } else { a + 0x1_0000_0000_0000_0000 }) as nat, 8));
    }
    assert forall|a: i64, b: i64, order: ByteOrder| #[trigger]
        a.image(order) == #[trigger] b.image(order) implies a == b by {
        lemma_value_of_le((if a >= 0 { a as int } else { a + 0x1_0000_0000_0000_0000 }) as nat, 8);
        lemma_value_of_le((if b >= 0 { b as int } else { b + 0x1_0000_0000_0000_0000 }) as nat, 8);
        lemma_arranged_twice(order, le_bytes((if a >= 0 { a as int } else { a + 0x1_0000_0000_0000_0000 }) as nat, 8));
        lemma_arranged_twice(order, le_bytes((if b >= 0 { b as int } else { b + 0x1_0000_0000_0000_0000 }) as nat, 8));
    }
}

/// The bytes of a value of this type tell the value.
pub proof fn law_u128_is_faithful()
    ensures
        faithful::<u128>(),
{
    reveal_with_fuel(le_limit, 17);
    assert forall|a: u128, order: ByteOrder| (#[trigger] a.image(order)).len() == u128::width() by {
        lemma_value_of_le(a as nat, 16);
        lemma_arranged_twice(order, le_bytes(a as nat, 16));
    }
    assert forall|a: u128, b: u128, order: ByteOrder| #[trigger]
        a.image(order) == #[trigger] b.image(order) implies a == b by {
        lemma_value_of_le(a as nat, 16);
        lemma_value_of_le(b as nat, 16);
        lemma_arranged_twice(order, le_bytes(a as nat, 16));
        lemma_arranged_twice(order, le_bytes(b as nat, 16));
    }
}

/// The bytes of a value of this type tell the value.
pub proof fn law_i128_is_faithful()
    ensures
        faithful::<i128>(),
{
    reveal_with_fuel(le_limit, 17);
    assert forall|a: i128, order: ByteOrder| (#[trigger] a.image(order)).len() == i128::width() by {
        lemma_value_of_le((if a >= 0 { a as int } else { a + 0x1_0000_0000_0000_0000_0000_0000_0000_0000 }) as nat, 16);
        lemma_arranged_twice(order, le_bytes((if a >= 0 { a as int } else { a + 0x1_0000_0000_0000_0000_0000_0000_0000_0000 }) as nat, 16));
    }
    assert forall|a: i128, b: i128, order: ByteOrder| #[trigger]
        a.image(order) == #[trigger] b.image(order) implies a == b by {
        lemma_value_of_le((if a >= 0 { a as int } else { a + 0x1_0000_0000_0000_0000_0000_0000_0000_0000 }) as nat, 16);
        lemma_value_of_le((if b >= 0 { b as int } else { b + 0x1_0000_0000_0000_0000_0000_0000_0000_0000 }) as nat, 16);
        lemma_arranged_twice(order, le_bytes((if a >= 0 { a as int } else { a + 0x1_0000_0000_0000_0000_0000_0000_0000_0000 }) as nat, 16));
        lemma_arranged_twice(order, le_bytes((if b >= 0 { b as int } else { b + 0x1_0000_0000_0000_0000_0000_0000_0000_0000 }) as nat, 16));
    }
}


/// A value of this type crosses as it lies in memory: the lowest byte first on a machine that is
/// so, and last on the other kind.
pub proof fn law_u8_crosses_as_it_lies(value: u8)
    ensures
        u8::width() == 1,
        value.image(ByteOrder::Little).len() == 1,
        le_value(value.image(ByteOrder::Little)) == (value as int),
        value.image(ByteOrder::Big) == value.image(ByteOrder::Little).reverse(),
{
    lemma_le_limits();
    lemma_value_of_le(value as nat, 1);
}

/// A value of this type crosses as it lies in memory: the lowest byte first on a machine that is
/// so, and last on the other kind.
pub proof fn law_i8_crosses_as_it_lies(value: i8)
    ensures
        i8::width() == 1,
        value.image(ByteOrder::Little).len() == 1,
        le_value(value.image(ByteOrder::Little)) == (if value >= 0 {
            value as int
        } else {
            value + 0x100
        }),
        value.image(ByteOrder::Big) == value.image(ByteOrder::Little).reverse(),
{
    lemma_le_limits();
    lemma_value_of_le((if value >= 0 {
            value as int
        } else {
            value + 0x100
        }) as nat, 1);
}

/// A value of this type crosses as it lies in memory: the lowest byte first on a machine that is
/// so, and last on the other kind.
pub proof fn law_u16_crosses_as_it_lies(value: u16)
    ensures
        u16::width() == 2,
        value.image(ByteOrder::Little).len() == 2,
        le_value(value.image(ByteOrder::Little)) == (value as int),
        value.image(ByteOrder::Big) == value.image(ByteOrder::Little).reverse(),
{
    lemma_le_limits();
    lemma_value_of_le(value as nat, 2);
}

/// A value of this type crosses as it lies in memory: the lowest byte first on a machine that is
/// so, and last on the other kind.
pub proof fn law_i16_crosses_as_it_lies(value: i16)
    ensures
        i16::width() == 2,
        value.image(ByteOrder::Little).len() == 2,
        le_value(value.image(ByteOrder::Little)) == (if value >= 0 {
            value as int
        } else {
            value + 0x1_0000
        }),
        value.image(ByteOrder::Big) == value.image(ByteOrder::Little).reverse(),
{
    lemma_le_limits();
    lemma_value_of_le((if value >= 0 {
            value as int
        } else {
            value + 0x1_0000
        }) as nat, 2);
}

/// A value of this type crosses as it lies in memory: the lowest byte first on a machine that is
/// so, and last on the other kind.
pub proof fn law_u32_crosses_as_it_lies(value: u32)
    ensures
        u32::width() == 4,
        value.image(ByteOrder::Little).len() == 4,
        le_value(value.image(ByteOrder::Little)) == (value as int),
        value.image(ByteOrder::Big) == value.image(ByteOrder::Little).reverse(),
{
    lemma_le_limits();
    lemma_value_of_le(value as nat, 4);
}

/// A value of this type crosses as it lies in memory: the lowest byte first on a machine that is
/// so, and last on the other kind.
pub proof fn law_i32_crosses_as_it_lies(value: i32)
    ensures
        i32::width() == 4,
        value.image(ByteOrder::Little).len() == 4,
        le_value(value.image(ByteOrder::Little)) == (if value >= 0 {
            value as int
        } else {
            value + 0x1_0000_0000
        }),
        value.image(ByteOrder::Big) == value.image(ByteOrder::Little).reverse(),
{
    lemma_le_limits();
    lemma_value_of_le((if value >= 0 {
            value as int
        } else {
            value + 0x1_0000_0000
        }) as nat, 4);
}

/// A value of this type crosses as it lies in memory: the lowest byte first on a machine that is
/// so, and last on the other kind.
pub proof fn law_u64_crosses_as_it_lies(value: u64)
    ensures
        u64::width() == 8,
        value.image(ByteOrder::Little).len() == 8,
        le_value(value.image(ByteOrder::Little)) == (value as int),
        value.image(ByteOrder::Big) == value.image(ByteOrder::Little).reverse(),
{
    lemma_le_limits();
    lemma_value_of_le(value as nat, 8);
}

/// A value of this type crosses as it lies in memory: the lowest byte first on a machine that is
/// so, and last on the other kind.
pub proof fn law_i64_crosses_as_it_lies(value: i64)
    ensures
        i64::width() == 8,
        value.image(ByteOrder::Little).len() == 8,
        le_value(value.image(ByteOrder::Little)) == (if value >= 0 {
            value as int
        } else {
            value + 0x1_0000_0000_0000_0000
        }),
        value.image(ByteOrder::Big) == value.image(ByteOrder::Little).reverse(),
{
    lemma_le_limits();
    lemma_value_of_le((if value >= 0 {
            value as int
        } else {
            value + 0x1_0000_0000_0000_0000
        }) as nat, 8);
}

/// A value of this type crosses as it lies in memory: the lowest byte first on a machine that is
/// so, and last on the other kind.
pub proof fn law_u128_crosses_as_it_lies(value: u128)
    ensures
        u128::width() == 16,
        value.image(ByteOrder::Little).len() == 16,
        le_value(value.image(ByteOrder::Little)) == (value as int),
        value.image(ByteOrder::Big) == value.image(ByteOrder::Little).reverse(),
{
    reveal_with_fuel(le_limit, 17);
    lemma_value_of_le(value as nat, 16);
}

/// A value of this type crosses as it lies in memory: the lowest byte first on a machine that is
/// so, and last on the other kind.
pub proof fn law_i128_crosses_as_it_lies(value: i128)
    ensures
        i128::width() == 16,
        value.image(ByteOrder::Little).len() == 16,
        le_value(value.image(ByteOrder::Little)) == (if value >= 0 {
            value as int
        } else {
            value + 0x1_0000_0000_0000_0000_0000_0000_0000_0000
        }),
        value.image(ByteOrder::Big) == value.image(ByteOrder::Little).reverse(),
{
    reveal_with_fuel(le_limit, 17);
    lemma_value_of_le((if value >= 0 {
            value as int
        } else {
            value + 0x1_0000_0000_0000_0000_0000_0000_0000_0000
        }) as nat, 16);
}

/// The identifiers of plain numbers are not zero and differ from each other.
pub proof fn law_numbers_have_identifiers_of_their_own()
    ensures
        0 < u8::schema(),
        u8::schema() < i8::schema(),
        i8::schema() < u16::schema(),
        u16::schema() < i16::schema(),
        i16::schema() < u32::schema(),
        u32::schema() < i32::schema(),
        i32::schema() < u64::schema(),
        u64::schema() < i64::schema(),
        i64::schema() < u128::schema(),
        u128::schema() < i128::schema(),
{
}

} // verus!
