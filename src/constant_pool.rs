use vstd::prelude::*;
use crate::archivable::{Archivable, Decoded, lemma_byte_wire};
use crate::archive::{Archive, ArchiveInternal, lemma_remaining_advanced};
use crate::len_vec::LenVec;
use crate::result::Error;

verus! {

/// An entry of a class file's constant pool: a tagged variant whose one-byte
/// tag selects the payload that follows it. `Float` and `Double` hold the
/// IEEE 754 bits of their number. `Invalid` stands for no entry yet: its tag is
/// `0`, which no variant uses, and it cannot be written.
#[derive(Debug)]
pub enum CpInfo {
    Utf8(LenVec<u16, u8>),
    Integer(i32),
    Float(u32),
    Long(i64),
    Double(u64),
    Class(u16),
    String(u16),
    Fieldref((u16, u16)),
    Methodref((u16, u16)),
    InterfaceMethodref((u16, u16)),
    NameAndType((u16, u16)),
    MethodHandle((u8, u16)),
    MethodType(u16),
    Dynamic((u16, u16)),
    InvokeDynamic((u16, u16)),
    Module(u16),
    Package(u16),
    Invalid,
}

/// What a constant pool entry holds.
pub enum CpInfoView {
    Utf8(Seq<u8>),
    Integer(i32),
    Float(u32),
    Long(i64),
    Double(u64),
    Class(u16),
    String(u16),
    Fieldref((u16, u16)),
    Methodref((u16, u16)),
    InterfaceMethodref((u16, u16)),
    NameAndType((u16, u16)),
    MethodHandle((u8, u16)),
    MethodType(u16),
    Dynamic((u16, u16)),
    InvokeDynamic((u16, u16)),
    Module(u16),
    Package(u16),
    Invalid,
}

impl View for CpInfo {
    type V = CpInfoView;

    open spec fn view(&self) -> CpInfoView {
        match self {
            CpInfo::Utf8(p) => CpInfoView::Utf8(p@),
            CpInfo::Integer(p) => CpInfoView::Integer(p@),
            CpInfo::Float(p) => CpInfoView::Float(p@),
            CpInfo::Long(p) => CpInfoView::Long(p@),
            CpInfo::Double(p) => CpInfoView::Double(p@),
            CpInfo::Class(p) => CpInfoView::Class(p@),
            CpInfo::String(p) => CpInfoView::String(p@),
            CpInfo::Fieldref(p) => CpInfoView::Fieldref(p@),
            CpInfo::Methodref(p) => CpInfoView::Methodref(p@),
            CpInfo::InterfaceMethodref(p) => CpInfoView::InterfaceMethodref(p@),
            CpInfo::NameAndType(p) => CpInfoView::NameAndType(p@),
            CpInfo::MethodHandle(p) => CpInfoView::MethodHandle(p@),
            CpInfo::MethodType(p) => CpInfoView::MethodType(p@),
            CpInfo::Dynamic(p) => CpInfoView::Dynamic(p@),
            CpInfo::InvokeDynamic(p) => CpInfoView::InvokeDynamic(p@),
            CpInfo::Module(p) => CpInfoView::Module(p@),
            CpInfo::Package(p) => CpInfoView::Package(p@),
            CpInfo::Invalid => CpInfoView::Invalid,
        }
    }
}

impl Default for CpInfo {
    fn default() -> (r: Self)
        ensures
            r@ == CpInfoView::Invalid,
    {
        CpInfo::Invalid
    }
}

/// The tag of an entry; `0`, which no variant uses, for `Invalid`.
pub open spec fn tag_of(v: CpInfoView) -> u8 {
    match v {
        CpInfoView::Utf8(_) => 1,
        CpInfoView::Integer(_) => 3,
        CpInfoView::Float(_) => 4,
        CpInfoView::Long(_) => 5,
        CpInfoView::Double(_) => 6,
        CpInfoView::Class(_) => 7,
        CpInfoView::String(_) => 8,
        CpInfoView::Fieldref(_) => 9,
        CpInfoView::Methodref(_) => 10,
        CpInfoView::InterfaceMethodref(_) => 11,
        CpInfoView::NameAndType(_) => 12,
        CpInfoView::MethodHandle(_) => 15,
        CpInfoView::MethodType(_) => 16,
        CpInfoView::Dynamic(_) => 17,
        CpInfoView::InvokeDynamic(_) => 18,
        CpInfoView::Module(_) => 19,
        CpInfoView::Package(_) => 20,
        CpInfoView::Invalid => 0,
    }
}

/// A decoded payload as the entry it belongs to, counting the tag byte.
pub open spec fn after_tag<P, W>(d: Decoded<P>, f: spec_fn(P) -> W) -> Decoded<W> {
    match d {
        Decoded::Value(p, n) => Decoded::Value(f(p), n + 1),
        Decoded::ShortInput => Decoded::ShortInput,
        Decoded::Invalid => Decoded::Invalid,
    }
}

/// What reading the payload for `tag` from `rest` gives; an undeclared tag is
/// invalid.
pub open spec fn payload_from_wire(tag: u8, little_endian: bool, rest: Seq<u8>) -> Decoded<CpInfoView> {
    match tag {
        1 => after_tag(<LenVec<u16, u8>>::from_wire(little_endian, rest), |p| CpInfoView::Utf8(p)),
        3 => after_tag(<i32>::from_wire(little_endian, rest), |p| CpInfoView::Integer(p)),
        4 => after_tag(<u32>::from_wire(little_endian, rest), |p| CpInfoView::Float(p)),
        5 => after_tag(<i64>::from_wire(little_endian, rest), |p| CpInfoView::Long(p)),
        6 => after_tag(<u64>::from_wire(little_endian, rest), |p| CpInfoView::Double(p)),
        7 => after_tag(<u16>::from_wire(little_endian, rest), |p| CpInfoView::Class(p)),
        8 => after_tag(<u16>::from_wire(little_endian, rest), |p| CpInfoView::String(p)),
        9 => after_tag(<(u16, u16)>::from_wire(little_endian, rest), |p| CpInfoView::Fieldref(p)),
        10 => after_tag(<(u16, u16)>::from_wire(little_endian, rest), |p| CpInfoView::Methodref(p)),
        11 => after_tag(<(u16, u16)>::from_wire(little_endian, rest), |p| CpInfoView::InterfaceMethodref(p)),
        12 => after_tag(<(u16, u16)>::from_wire(little_endian, rest), |p| CpInfoView::NameAndType(p)),
        15 => after_tag(<(u8, u16)>::from_wire(little_endian, rest), |p| CpInfoView::MethodHandle(p)),
        16 => after_tag(<u16>::from_wire(little_endian, rest), |p| CpInfoView::MethodType(p)),
        17 => after_tag(<(u16, u16)>::from_wire(little_endian, rest), |p| CpInfoView::Dynamic(p)),
        18 => after_tag(<(u16, u16)>::from_wire(little_endian, rest), |p| CpInfoView::InvokeDynamic(p)),
        19 => after_tag(<u16>::from_wire(little_endian, rest), |p| CpInfoView::Module(p)),
        20 => after_tag(<u16>::from_wire(little_endian, rest), |p| CpInfoView::Package(p)),
        _ => Decoded::Invalid,
    }
}

/// The bytes of an entry's payload.
pub open spec fn payload_to_wire(v: CpInfoView, little_endian: bool) -> Seq<u8> {
    match v {
        CpInfoView::Utf8(p) => <LenVec<u16, u8>>::to_wire(p, little_endian),
        CpInfoView::Integer(p) => <i32>::to_wire(p, little_endian),
        CpInfoView::Float(p) => <u32>::to_wire(p, little_endian),
        CpInfoView::Long(p) => <i64>::to_wire(p, little_endian),
        CpInfoView::Double(p) => <u64>::to_wire(p, little_endian),
        CpInfoView::Class(p) => <u16>::to_wire(p, little_endian),
        CpInfoView::String(p) => <u16>::to_wire(p, little_endian),
        CpInfoView::Fieldref(p) => <(u16, u16)>::to_wire(p, little_endian),
        CpInfoView::Methodref(p) => <(u16, u16)>::to_wire(p, little_endian),
        CpInfoView::InterfaceMethodref(p) => <(u16, u16)>::to_wire(p, little_endian),
        CpInfoView::NameAndType(p) => <(u16, u16)>::to_wire(p, little_endian),
        CpInfoView::MethodHandle(p) => <(u8, u16)>::to_wire(p, little_endian),
        CpInfoView::MethodType(p) => <u16>::to_wire(p, little_endian),
        CpInfoView::Dynamic(p) => <(u16, u16)>::to_wire(p, little_endian),
        CpInfoView::InvokeDynamic(p) => <(u16, u16)>::to_wire(p, little_endian),
        CpInfoView::Module(p) => <u16>::to_wire(p, little_endian),
        CpInfoView::Package(p) => <u16>::to_wire(p, little_endian),
        CpInfoView::Invalid => Seq::empty(),
    }
}

/// Whether an entry can be written: not `Invalid`, and a payload that can be.
pub open spec fn payload_writable(v: CpInfoView) -> bool {
    match v {
        CpInfoView::Utf8(p) => <LenVec<u16, u8>>::writable(p),
        CpInfoView::Integer(p) => <i32>::writable(p),
        CpInfoView::Float(p) => <u32>::writable(p),
        CpInfoView::Long(p) => <i64>::writable(p),
        CpInfoView::Double(p) => <u64>::writable(p),
        CpInfoView::Class(p) => <u16>::writable(p),
        CpInfoView::String(p) => <u16>::writable(p),
        CpInfoView::Fieldref(p) => <(u16, u16)>::writable(p),
        CpInfoView::Methodref(p) => <(u16, u16)>::writable(p),
        CpInfoView::InterfaceMethodref(p) => <(u16, u16)>::writable(p),
        CpInfoView::NameAndType(p) => <(u16, u16)>::writable(p),
        CpInfoView::MethodHandle(p) => <(u8, u16)>::writable(p),
        CpInfoView::MethodType(p) => <u16>::writable(p),
        CpInfoView::Dynamic(p) => <(u16, u16)>::writable(p),
        CpInfoView::InvokeDynamic(p) => <(u16, u16)>::writable(p),
        CpInfoView::Module(p) => <u16>::writable(p),
        CpInfoView::Package(p) => <u16>::writable(p),
        CpInfoView::Invalid => false,
    }
}

proof fn lemma_payload_round_trip(v: CpInfoView, little_endian: bool, rest: Seq<u8>)
    requires
        payload_writable(v),
    ensures
        payload_from_wire(tag_of(v), little_endian, payload_to_wire(v, little_endian) + rest)
            == Decoded::Value(v, payload_to_wire(v, little_endian).len() + 1),
{
    match v {
        CpInfoView::Utf8(p) => <LenVec<u16, u8>>::lemma_round_trip(p, little_endian, rest),
        CpInfoView::Integer(p) => <i32>::lemma_round_trip(p, little_endian, rest),
        CpInfoView::Float(p) => <u32>::lemma_round_trip(p, little_endian, rest),
        CpInfoView::Long(p) => <i64>::lemma_round_trip(p, little_endian, rest),
        CpInfoView::Double(p) => <u64>::lemma_round_trip(p, little_endian, rest),
        CpInfoView::Class(p) => <u16>::lemma_round_trip(p, little_endian, rest),
        CpInfoView::String(p) => <u16>::lemma_round_trip(p, little_endian, rest),
        CpInfoView::Fieldref(p) => <(u16, u16)>::lemma_round_trip(p, little_endian, rest),
        CpInfoView::Methodref(p) => <(u16, u16)>::lemma_round_trip(p, little_endian, rest),
        CpInfoView::InterfaceMethodref(p) => <(u16, u16)>::lemma_round_trip(p, little_endian, rest),
        CpInfoView::NameAndType(p) => <(u16, u16)>::lemma_round_trip(p, little_endian, rest),
        CpInfoView::MethodHandle(p) => <(u8, u16)>::lemma_round_trip(p, little_endian, rest),
        CpInfoView::MethodType(p) => <u16>::lemma_round_trip(p, little_endian, rest),
        CpInfoView::Dynamic(p) => <(u16, u16)>::lemma_round_trip(p, little_endian, rest),
        CpInfoView::InvokeDynamic(p) => <(u16, u16)>::lemma_round_trip(p, little_endian, rest),
        CpInfoView::Module(p) => <u16>::lemma_round_trip(p, little_endian, rest),
        CpInfoView::Package(p) => <u16>::lemma_round_trip(p, little_endian, rest),
        CpInfoView::Invalid => {},
    }
}

proof fn lemma_payload_consumed(tag: u8, little_endian: bool, rest: Seq<u8>)
    ensures
        payload_from_wire(tag, little_endian, rest) matches Decoded::Value(_, n) ==> n <= rest.len() + 1,
{
    match tag {
        1 => <LenVec<u16, u8>>::lemma_consumed(little_endian, rest),
        3 => <i32>::lemma_consumed(little_endian, rest),
        4 => <u32>::lemma_consumed(little_endian, rest),
        5 => <i64>::lemma_consumed(little_endian, rest),
        6 => <u64>::lemma_consumed(little_endian, rest),
        7 => <u16>::lemma_consumed(little_endian, rest),
        8 => <u16>::lemma_consumed(little_endian, rest),
        9 => <(u16, u16)>::lemma_consumed(little_endian, rest),
        10 => <(u16, u16)>::lemma_consumed(little_endian, rest),
        11 => <(u16, u16)>::lemma_consumed(little_endian, rest),
        12 => <(u16, u16)>::lemma_consumed(little_endian, rest),
        15 => <(u8, u16)>::lemma_consumed(little_endian, rest),
        16 => <u16>::lemma_consumed(little_endian, rest),
        17 => <(u16, u16)>::lemma_consumed(little_endian, rest),
        18 => <(u16, u16)>::lemma_consumed(little_endian, rest),
        19 => <u16>::lemma_consumed(little_endian, rest),
        20 => <u16>::lemma_consumed(little_endian, rest),
        _ => {},
    }
}

/// A hexadecimal digit.
fn hex_digit(d: u8) -> &'static str
    requires
        d < 16,
{
    match d {
        0 => "0",
        1 => "1",
        2 => "2",
        3 => "3",
        4 => "4",
        5 => "5",
        6 => "6",
        7 => "7",
        8 => "8",
        9 => "9",
        10 => "a",
        11 => "b",
        12 => "c",
        13 => "d",
        14 => "e",
        _ => "f",
    }
}

/// The value error for a tag that no variant declares; its message gives the
/// tag in hexadecimal.
fn unknown_tag<T>(tag: u8) -> (r: Result<T, Error>)
    ensures
        r matches Err(Error::ValueError(_)),
{
    let mut message = String::from_str("invalid tag for enum ");
    message.append(hex_digit(tag / 16));
    message.append(hex_digit(tag % 16));
    Err(Error::ValueError(message))
}

impl CpInfo {
    /// The entry's tag.
    pub fn tag(&self) -> (r: u8)
        ensures
            r == tag_of(self@),
    {
        match self {

            CpInfo::Utf8(_) => 1,
            CpInfo::Integer(_) => 3,
            CpInfo::Float(_) => 4,
            CpInfo::Long(_) => 5,
            CpInfo::Double(_) => 6,
            CpInfo::Class(_) => 7,
            CpInfo::String(_) => 8,
            CpInfo::Fieldref(_) => 9,
            CpInfo::Methodref(_) => 10,
            CpInfo::InterfaceMethodref(_) => 11,
            CpInfo::NameAndType(_) => 12,
            CpInfo::MethodHandle(_) => 15,
            CpInfo::MethodType(_) => 16,
            CpInfo::Dynamic(_) => 17,
            CpInfo::InvokeDynamic(_) => 18,
            CpInfo::Module(_) => 19,
            CpInfo::Package(_) => 20,
            CpInfo::Invalid => 0,
        }
    }
}

/// The tag as one byte, then the payload of the variant it names.
impl Archivable for CpInfo {
    open spec fn to_wire(v: CpInfoView, little_endian: bool) -> Seq<u8> {
        u8::to_wire(tag_of(v), little_endian) + payload_to_wire(v, little_endian)
    }

    open spec fn writable(v: CpInfoView) -> bool {
        payload_writable(v)
    }

    open spec fn from_wire(little_endian: bool, bytes: Seq<u8>) -> Decoded<CpInfoView> {
        match u8::from_wire(little_endian, bytes) {
            Decoded::Value(tag, n) => payload_from_wire(tag, little_endian, bytes.skip(n as int)),
            Decoded::ShortInput => Decoded::ShortInput,
            Decoded::Invalid => Decoded::Invalid,
        }
    }

    proof fn lemma_round_trip(v: CpInfoView, little_endian: bool, rest: Seq<u8>) {
        let tw = u8::to_wire(tag_of(v), little_endian);
        let pw = payload_to_wire(v, little_endian);
        let bytes = tw + pw + rest;
        lemma_byte_wire(tag_of(v), little_endian);
        assert(bytes =~= tw + (pw + rest));
        u8::lemma_round_trip(tag_of(v), little_endian, pw + rest);
        assert(bytes.skip(1) =~= pw + rest);
        lemma_payload_round_trip(v, little_endian, rest);
    }

    proof fn lemma_consumed(little_endian: bool, bytes: Seq<u8>) {
        if bytes.len() >= 1 {
            lemma_payload_consumed(bytes[0], little_endian, bytes.skip(1));
            lemma_byte_wire(bytes[0], little_endian);
        }
        if let Decoded::Value(tag, n) = u8::from_wire(little_endian, bytes) {
            lemma_payload_consumed(tag, little_endian, bytes.skip(n as int));
        }
    }

    fn archive<Ar: ArchiveInternal>(&mut self, ar: &mut Ar) -> (r: Result<(), Error>) {
        let ghost s0 = ar.state();
        let ghost le = s0.little_endian;
        let mut tag = self.tag();
        let rt = ar.archive(&mut tag);
        if rt.is_err() {
            return rt;
        }
        proof {
            if s0.reading {
                if let Decoded::Value(t, n) = u8::from_wire(le, s0.remaining()) {
                    lemma_remaining_advanced(s0, n);
                }
            }
        }
        let ghost s1 = ar.state();
        if ar.is_reading() {
            match tag {

                1 => {
                    let mut p = LenVec::<u16, u8>::default();
                    let r = ar.archive(&mut p);
                    if r.is_ok() {
                        *self = CpInfo::Utf8(p);
                    }
                    r
                },
                3 => {
                    let mut p = i32::default();
                    let r = ar.archive(&mut p);
                    if r.is_ok() {
                        *self = CpInfo::Integer(p);
                    }
                    r
                },
                4 => {
                    let mut p = u32::default();
                    let r = ar.archive(&mut p);
                    if r.is_ok() {
                        *self = CpInfo::Float(p);
                    }
                    r
                },
                5 => {
                    let mut p = i64::default();
                    let r = ar.archive(&mut p);
                    if r.is_ok() {
                        *self = CpInfo::Long(p);
                    }
                    r
                },
                6 => {
                    let mut p = u64::default();
                    let r = ar.archive(&mut p);
                    if r.is_ok() {
                        *self = CpInfo::Double(p);
                    }
                    r
                },
                7 => {
                    let mut p = u16::default();
                    let r = ar.archive(&mut p);
                    if r.is_ok() {
                        *self = CpInfo::Class(p);
                    }
                    r
                },
                8 => {
                    let mut p = u16::default();
                    let r = ar.archive(&mut p);
                    if r.is_ok() {
                        *self = CpInfo::String(p);
                    }
                    r
                },
                9 => {
                    let mut p = <(u16, u16)>::default();
                    let r = ar.archive(&mut p);
                    if r.is_ok() {
                        *self = CpInfo::Fieldref(p);
                    }
                    r
                },
                10 => {
                    let mut p = <(u16, u16)>::default();
                    let r = ar.archive(&mut p);
                    if r.is_ok() {
                        *self = CpInfo::Methodref(p);
                    }
                    r
                },
                11 => {
                    let mut p = <(u16, u16)>::default();
                    let r = ar.archive(&mut p);
                    if r.is_ok() {
                        *self = CpInfo::InterfaceMethodref(p);
                    }
                    r
                },
                12 => {
                    let mut p = <(u16, u16)>::default();
                    let r = ar.archive(&mut p);
                    if r.is_ok() {
                        *self = CpInfo::NameAndType(p);
                    }
                    r
                },
                15 => {
                    let mut p = <(u8, u16)>::default();
                    let r = ar.archive(&mut p);
                    if r.is_ok() {
                        *self = CpInfo::MethodHandle(p);
                    }
                    r
                },
                16 => {
                    let mut p = u16::default();
                    let r = ar.archive(&mut p);
                    if r.is_ok() {
                        *self = CpInfo::MethodType(p);
                    }
                    r
                },
                17 => {
                    let mut p = <(u16, u16)>::default();
                    let r = ar.archive(&mut p);
                    if r.is_ok() {
                        *self = CpInfo::Dynamic(p);
                    }
                    r
                },
                18 => {
                    let mut p = <(u16, u16)>::default();
                    let r = ar.archive(&mut p);
                    if r.is_ok() {
                        *self = CpInfo::InvokeDynamic(p);
                    }
                    r
                },
                19 => {
                    let mut p = u16::default();
                    let r = ar.archive(&mut p);
                    if r.is_ok() {
                        *self = CpInfo::Module(p);
                    }
                    r
                },
                20 => {
                    let mut p = u16::default();
                    let r = ar.archive(&mut p);
                    if r.is_ok() {
                        *self = CpInfo::Package(p);
                    }
                    r
                },
                _ => unknown_tag(tag),
            }
        } else {
            let r = match self {
                CpInfo::Utf8(p) => ar.archive(p),
                CpInfo::Integer(p) => ar.archive(p),
                CpInfo::Float(p) => ar.archive(p),
                CpInfo::Long(p) => ar.archive(p),
                CpInfo::Double(p) => ar.archive(p),
                CpInfo::Class(p) => ar.archive(p),
                CpInfo::String(p) => ar.archive(p),
                CpInfo::Fieldref(p) => ar.archive(p),
                CpInfo::Methodref(p) => ar.archive(p),
                CpInfo::InterfaceMethodref(p) => ar.archive(p),
                CpInfo::NameAndType(p) => ar.archive(p),
                CpInfo::MethodHandle(p) => ar.archive(p),
                CpInfo::MethodType(p) => ar.archive(p),
                CpInfo::Dynamic(p) => ar.archive(p),
                CpInfo::InvokeDynamic(p) => ar.archive(p),
                CpInfo::Module(p) => ar.archive(p),
                CpInfo::Package(p) => ar.archive(p),
                CpInfo::Invalid => crate::result::value_error("writing invalid enum value"),
            };
            proof {
                if r is Ok {
                    assert(ar.state().data =~= s0.data + Self::to_wire(old(self)@, le));
                }
            }
            r
        }
    }
}

} // verus!
