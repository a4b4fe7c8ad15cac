//! Properties that relate several operations of the library.
use vstd::prelude::*;
use crate::archivable::{
    Archivable,
    CountWidth,
    Decoded,
    len_prefixed_to_wire,
    len_prefixed_writable,
    seq_to_wire,
};
use crate::archive::ArchiveState;
use crate::constant_pool::CpInfo;

verus! {

/// A value that one archive wrote is read back as itself by a fresh reading
/// archive, in the same byte order, positioned where the value starts.
pub proof fn written_value_reads_back<T: Archivable>(
    v: T::V,
    writer: ArchiveState,
    reader: ArchiveState,
)
    requires
        T::writable(v),
        !writer.reading,
        reader.reading,
        reader.little_endian == writer.little_endian,
        reader.data == writer.appended(T::to_wire(v, writer.little_endian)).data,
        reader.pos == writer.data.len(),
    ensures
        T::from_wire(reader.little_endian, reader.remaining()) == Decoded::Value(
            v,
            T::to_wire(v, writer.little_endian).len(),
        ),
{
    let w = T::to_wire(v, writer.little_endian);
    assert(reader.remaining() =~= w + Seq::<u8>::empty());
    T::lemma_round_trip(v, writer.little_endian, Seq::empty());
}

proof fn lemma_seq_size<T: Archivable>(vs: Seq<T::V>, little_endian: bool, width: nat)
    requires
        forall|x: T::V| #[trigger] T::to_wire(x, little_endian).len() == width,
    ensures
        seq_to_wire::<T>(vs, little_endian).len() == vs.len() * width,
    decreases vs.len(),
{
    if vs.len() > 0 {
        lemma_seq_size::<T>(vs.drop_last(), little_endian, width);
        assert(T::to_wire(vs.last(), little_endian).len() == width);
        assert((vs.len() - 1) * width + width == vs.len() * width) by (nonlinear_arith);
    }
}

/// Where the count and the items have fixed widths, a length-prefixed sequence
/// takes exactly the count's width plus the count times the item's width.
pub proof fn len_prefixed_size<L: CountWidth, T: Archivable>(
    vs: Seq<T::V>,
    little_endian: bool,
    count_width: nat,
    item_width: nat,
)
    requires
        forall|c: L::V| #[trigger] L::to_wire(c, little_endian).len() == count_width,
        forall|x: T::V| #[trigger] T::to_wire(x, little_endian).len() == item_width,
    ensures
        len_prefixed_to_wire::<L, T>(vs, little_endian).len() == count_width + vs.len()
            * item_width,
{
    lemma_seq_size::<T>(vs, little_endian, item_width);
    assert(L::to_wire(L::of_count(vs.len()), little_endian).len() == count_width);
}

/// A sequence longer than its count type holds cannot be written: writing it
/// is a value error, never a wrapped or cut count.
pub proof fn too_long_is_not_writable<L: CountWidth, T: Archivable>(vs: Seq<T::V>)
    requires
        vs.len() > L::max_count(),
    ensures
        !len_prefixed_writable::<L, T>(vs),
{
}

/// A constant pool entry whose tag no variant declares is rejected, whatever
/// follows the tag.
pub proof fn undeclared_tag_is_invalid(little_endian: bool, bytes: Seq<u8>)
    requires
        bytes.len() >= 1,
        !(bytes[0] == 1 || (3 <= bytes[0] <= 12) || (15 <= bytes[0] <= 20)),
    ensures
        CpInfo::from_wire(little_endian, bytes) == Decoded::<crate::constant_pool::CpInfoView>::Invalid,
{
    crate::archivable::lemma_byte_wire(bytes[0], little_endian);
}

} // verus!
