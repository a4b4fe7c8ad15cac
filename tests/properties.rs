use parchive::{
    Archive, ArchiveInternal, ArchiveReader, ArchiveSeekable, ArchiveWriter, CpInfo, Error,
    IoErrorKind, LenStringUtf8, LenVec, SeekFrom,
};

fn write_u32(value: u32, little_endian: bool) -> Vec<u8> {
    let mut ar = ArchiveWriter::new(Vec::new());
    ar.set_little_endian(little_endian);
    let mut v = value;
    ar.archive(&mut v).unwrap();
    ar.into_inner()
}

#[test]
fn byte_order_of_u32() {
    assert_eq!(vec![0x00, 0x01, 0x02, 0x03], write_u32(0x03020100, true));
    assert_eq!(vec![0x03, 0x02, 0x01, 0x00], write_u32(0x03020100, false));

    let mut ar = ArchiveReader::new(vec![0x03, 0x02, 0x01, 0x00]);
    ar.set_little_endian(false);
    let mut v: u32 = 0;
    ar.archive(&mut v).unwrap();
    assert_eq!(0x03020100, v);

    let mut ar = ArchiveReader::new(vec![0x00, 0x01, 0x02, 0x03]);
    let mut v: u32 = 0;
    ar.archive(&mut v).unwrap();
    assert_eq!(0x03020100, v);
}

#[test]
fn signed_values_use_twos_complement() {
    let mut ar = ArchiveWriter::new(Vec::new());
    ar.set_little_endian(false);
    let mut a: i16 = -2;
    let mut b: i8 = -128;
    ar.archive(&mut a).unwrap();
    ar.archive(&mut b).unwrap();
    let data = ar.into_inner();
    assert_eq!(vec![0xff, 0xfe, 0x80], data);

    let mut ar = ArchiveReader::new(data);
    ar.set_little_endian(false);
    let mut a: i16 = 0;
    let mut b: i8 = 0;
    ar.archive(&mut a).unwrap();
    ar.archive(&mut b).unwrap();
    assert_eq!((-2, -128), (a, b));
}

#[test]
fn wide_integers_round_trip() {
    let mut ar = ArchiveWriter::new(Vec::new());
    let mut a: u128 = 0x0f0e0d0c_0b0a0908_07060504_03020100;
    let mut b: i64 = -5;
    let mut c: u64 = 0x0102030405060708;
    ar.archive(&mut a).unwrap();
    ar.set_little_endian(false);
    ar.archive(&mut b).unwrap();
    ar.archive(&mut c).unwrap();
    let data = ar.into_inner();
    assert_eq!(32, data.len());
    assert_eq!((0..16).collect::<Vec<u8>>(), data[0..16].to_vec());
    assert_eq!(vec![0xff, 0xff, 0xff, 0xff, 0xff, 0xff, 0xff, 0xfb], data[16..24].to_vec());
    assert_eq!(vec![1, 2, 3, 4, 5, 6, 7, 8], data[24..32].to_vec());

    let mut ar = ArchiveReader::new(data);
    let (mut a2, mut b2, mut c2): (u128, i64, u64) = (0, 0, 0);
    ar.archive(&mut a2).unwrap();
    ar.set_little_endian(false);
    ar.archive(&mut b2).unwrap();
    ar.archive(&mut c2).unwrap();
    assert_eq!((a, b, c), (a2, b2, c2));
}

#[test]
fn len_prefix_wire_size_is_exact() {
    let mut ar = ArchiveWriter::new(Vec::new());
    let mut value = LenVec::<u8, u16>::new(vec![0x0302, 0x0504]);
    ar.archive(&mut value).unwrap();
    let data = ar.into_inner();
    assert_eq!(vec![0x02, 0x02, 0x03, 0x04, 0x05], data);
    assert_eq!(1 + 2 * 2, data.len());

    let mut ar = ArchiveWriter::new(Vec::new());
    let mut value = LenVec::<u16, u32>::new(vec![1, 2, 3]);
    ar.archive(&mut value).unwrap();
    let data = ar.into_inner();
    assert_eq!(2 + 3 * 4, data.len());
    assert_eq!(vec![3, 0, 1, 0, 0, 0, 2, 0, 0, 0, 3, 0, 0, 0], data);
}

#[test]
fn tag_dispatch_selects_the_variant() {
    let mut ar = ArchiveReader::new(vec![0x01, 0x02, 0x00, b'h', b'i']);
    let mut entry = CpInfo::default();
    ar.archive(&mut entry).unwrap();
    match &entry {
        CpInfo::Utf8(bytes) => assert_eq!(vec![b'h', b'i'], **bytes),
        other => panic!("unexpected entry {:?}", other),
    }

    let mut ar = ArchiveReader::new(vec![0x09, 0x01, 0x00, 0x02, 0x00]);
    let mut entry = CpInfo::default();
    ar.archive(&mut entry).unwrap();
    assert!(matches!(entry, CpInfo::Fieldref((1, 2))));
}

#[test]
fn undeclared_tag_is_a_value_error() {
    let mut ar = ArchiveReader::new(vec![0x02, 0x00, 0x00, 0x00, 0x00]);
    let mut entry = CpInfo::default();
    let r = ar.archive(&mut entry);
    match r {
        Err(Error::ValueError(message)) => assert!(message.ends_with("02")),
        other => panic!("unexpected result {:?}", other),
    }
    assert!(matches!(entry, CpInfo::Invalid));
}

#[test]
fn writing_an_invalid_entry_fails() {
    let mut ar = ArchiveWriter::new(Vec::new());
    let mut entry = CpInfo::Invalid;
    assert!(matches!(ar.archive(&mut entry), Err(Error::ValueError(_))));
}

#[test]
fn entries_round_trip() {
    let mut ar = ArchiveWriter::new(Vec::new());
    let mut a = CpInfo::Utf8(LenVec::new(vec![b'a', b'b', b'c']));
    let mut b = CpInfo::Long(-7);
    let mut c = CpInfo::MethodHandle((5, 0x0102));
    ar.archive(&mut a).unwrap();
    ar.archive(&mut b).unwrap();
    ar.archive(&mut c).unwrap();
    let data = ar.into_inner();
    assert_eq!(vec![1, 3, 0, b'a', b'b', b'c'], data[0..6].to_vec());
    assert_eq!(5, data[6]);
    assert_eq!(vec![15, 5, 0x02, 0x01], data[15..19].to_vec());

    let mut ar = ArchiveReader::new(data);
    let mut x = CpInfo::default();
    ar.archive(&mut x).unwrap();
    match &x {
        CpInfo::Utf8(bytes) => assert_eq!(vec![b'a', b'b', b'c'], **bytes),
        other => panic!("unexpected entry {:?}", other),
    }
    ar.archive(&mut x).unwrap();
    assert!(matches!(x, CpInfo::Long(-7)));
    ar.archive(&mut x).unwrap();
    assert!(matches!(x, CpInfo::MethodHandle((5, 0x0102))));
}

#[test]
fn optional_presence_must_match() {
    let mut ar = ArchiveWriter::new(Vec::new());
    let mut x: Option<u16> = Some(7);
    assert!(matches!(ar.archive_option(false, &mut x), Err(Error::ValueError(_))));
    let mut y: Option<u16> = None;
    assert!(matches!(ar.archive_option(true, &mut y), Err(Error::ValueError(_))));
    assert_eq!(Vec::<u8>::new(), ar.into_inner());
}

#[test]
fn count_overflow_is_a_value_error() {
    let mut ar = ArchiveWriter::new(Vec::new());
    let mut value = LenVec::<u8, u8>::new(vec![0; 300]);
    assert!(matches!(ar.archive(&mut value), Err(Error::ValueError(_))));
    assert_eq!(Vec::<u8>::new(), ar.into_inner());

    let mut ar = ArchiveWriter::new(Vec::new());
    let mut value = LenVec::<u8, u8>::new(vec![0; 255]);
    ar.archive(&mut value).unwrap();
    assert_eq!(256, ar.into_inner().len());
}

#[test]
fn big_endian_record_scenario() {
    let bytes = vec![0x01, 0x02, 0x03, 0x04, 0x05];
    let mut ar = ArchiveReader::new(bytes.clone());
    ar.set_little_endian(false);
    let mut record: (u8, u32) = (0, 0);
    ar.archive(&mut record).unwrap();
    assert_eq!((1, 0x02030405), record);

    let mut ar = ArchiveWriter::new(Vec::new());
    ar.set_little_endian(false);
    ar.archive(&mut record).unwrap();
    assert_eq!(bytes, ar.into_inner());
}

#[test]
fn byte_order_can_change_mid_structure() {
    let mut ar = ArchiveWriter::new(Vec::new());
    ar.set_little_endian(false);
    let mut header: u16 = 0x0102;
    ar.archive(&mut header).unwrap();
    ar.set_little_endian(true);
    let mut body: u16 = 0x0102;
    ar.archive(&mut body).unwrap();
    assert_eq!(vec![0x01, 0x02, 0x02, 0x01], ar.into_inner());
}

#[test]
fn short_input_is_an_io_error() {
    let mut ar = ArchiveReader::new(vec![1, 2, 3]);
    let mut v: u32 = 0;
    assert!(matches!(
        ar.archive(&mut v),
        Err(Error::IoError(IoErrorKind::UnexpectedEof))
    ));

    let mut ar = ArchiveReader::new(vec![3, 1, 2]);
    let mut value = LenVec::<u8, u8>::default();
    assert!(matches!(ar.archive(&mut value), Err(Error::IoError(_))));
}

#[test]
fn vec_length_must_match_when_writing() {
    let mut ar = ArchiveWriter::new(Vec::new());
    let mut v: Vec<u8> = vec![1, 2];
    assert!(matches!(ar.archive_vec(3, &mut v), Err(Error::ValueError(_))));
}

#[test]
fn utf8_string_round_trip() {
    let mut ar = ArchiveWriter::new(Vec::new());
    let mut s = LenStringUtf8::<u8>::new("h\u{e9}".to_string());
    ar.archive(&mut s).unwrap();
    let data = ar.into_inner();
    assert_eq!(vec![3, b'h', 0xc3, 0xa9], data);

    let mut ar = ArchiveReader::new(data);
    let mut t = LenStringUtf8::<u8>::default();
    ar.archive(&mut t).unwrap();
    assert_eq!("h\u{e9}", t.as_str());
}

#[test]
fn invalid_utf8_is_a_value_error() {
    let mut ar = ArchiveReader::new(vec![2, 0xc3, 0x28]);
    let mut t = LenStringUtf8::<u8>::default();
    assert!(matches!(ar.archive(&mut t), Err(Error::ValueError(_))));
    assert_eq!("", t.as_str());
}

#[test]
fn seeking_moves_the_reader() {
    let mut ar = ArchiveReader::new(vec![10, 11, 12, 13]);
    assert_eq!(2, ar.seek(SeekFrom::Start(2)).unwrap());
    let mut v: u8 = 0;
    ar.archive(&mut v).unwrap();
    assert_eq!(12, v);
    assert_eq!(1, ar.seek(SeekFrom::Current(-2)).unwrap());
    ar.archive(&mut v).unwrap();
    assert_eq!(11, v);
    assert_eq!(3, ar.seek(SeekFrom::End(-1)).unwrap());
    ar.archive(&mut v).unwrap();
    assert_eq!(13, v);
    assert!(matches!(
        ar.seek(SeekFrom::Current(-10)),
        Err(Error::IoError(IoErrorKind::InvalidInput))
    ));
    assert_eq!(10, ar.seek(SeekFrom::Start(10)).unwrap());
    assert!(matches!(ar.archive(&mut v), Err(Error::IoError(_))));
}

#[test]
fn slice_is_transcoded_in_place() {
    let mut ar = ArchiveReader::new(vec![1, 0, 2, 0]);
    let mut items: [u16; 3] = [0, 0, 9];
    ar.archive_slice(2, &mut items).unwrap();
    assert_eq!([1, 2, 9], items);

    let mut ar = ArchiveWriter::new(Vec::new());
    ar.archive_slice(2, &mut items).unwrap();
    assert_eq!(vec![1, 0, 2, 0], ar.into_inner());
}

#[test]
fn pointer_sized_integers_use_the_machine_width() {
    let width = std::mem::size_of::<usize>();
    let mut ar = ArchiveWriter::new(Vec::new());
    let mut a: usize = 0x0102;
    let mut b: isize = -1;
    ar.archive(&mut a).unwrap();
    ar.archive(&mut b).unwrap();
    let data = ar.into_inner();
    assert_eq!(2 * width, data.len());
    assert_eq!(vec![0x02, 0x01, 0x00], data[0..3].to_vec());
    assert!(data[width..].iter().all(|x| *x == 0xff));

    let mut ar = ArchiveReader::new(data);
    let mut a2: usize = 0;
    let mut b2: isize = 0;
    ar.archive(&mut a2).unwrap();
    ar.archive(&mut b2).unwrap();
    assert_eq!((0x0102, -1), (a2, b2));
}

#[test]
fn string_encode_and_decode() {
    let mut s = LenStringUtf8::<u16>::new("abc".to_string());
    assert_eq!(vec![b'a', b'b', b'c'], s.encode());
    s.decode(vec![0xe2, 0x82, 0xac]).unwrap();
    assert_eq!("\u{20ac}", s.as_str());
    assert!(matches!(s.decode(vec![0xff]), Err(Error::ValueError(_))));
    assert_eq!("\u{20ac}", s.as_str());
}
