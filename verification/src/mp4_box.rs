// MP4 box parsing and construction.
//
// A box is a 32-bit big-endian size, a four-byte type, and content. A size of 1
// means a 64-bit size follows the type; a size of 0 means the box runs to the
// end of the enclosing data.
use vstd::prelude::*;
use crate::binary::{be32, be64, lemma_be32_of, read_u32_be, read_u64_be, u32_be_bytes, write_bytes, write_u32_be};

verus! {

/// Location and type of a box inside a byte buffer.
#[derive(Debug, Clone, Copy)]
pub struct BoxInfo {
    pub offset: usize,
    pub header_size: usize,
    pub total_size: usize,
    pub box_type: [u8; 4],
}

/// The four bytes at `data[off..off + 4]`, as a box type.
pub open spec fn box_type_at(data: Seq<u8>, off: int) -> [u8; 4] {
    [data[off], data[off + 1], data[off + 2], data[off + 3]]
}

/// The box header found at `offset`, if the header fits in `data`.
pub open spec fn spec_parse_box_at(data: Seq<u8>, offset: int) -> Option<BoxInfo> {
    if offset < 0 || offset + 8 > data.len() {
        None
    } else {
        let size = be32(data, offset);
        let box_type = box_type_at(data, offset + 4);
        if size == 1 {
            if offset + 16 > data.len() {
                None
            } else {
                Some(
                    BoxInfo {
                        offset: offset as usize,
                        header_size: 16,
                        total_size: be64(data, offset + 8) as usize,
                        box_type,
                    },
                )
            }
        } else if size == 0 {
            Some(
                BoxInfo {
                    offset: offset as usize,
                    header_size: 8,
                    total_size: (data.len() - offset) as usize,
                    box_type,
                },
            )
        } else {
            Some(BoxInfo { offset: offset as usize, header_size: 8, total_size: size as usize, box_type })
        }
    }
}

/// The sequence of boxes read one after another from `offset`: reading stops
/// where no header fits, where a box claims size 0 after decoding, or after a
/// box that claims to reach past the end of `data`.
pub open spec fn spec_boxes_from(data: Seq<u8>, offset: int) -> Seq<BoxInfo>
    decreases data.len() - offset,
{
    if offset < 0 || offset + 8 > data.len() {
        Seq::empty()
    } else {
        match spec_parse_box_at(data, offset) {
            None => Seq::empty(),
            Some(info) => {
                if info.total_size == 0 {
                    Seq::empty()
                } else if offset + info.total_size > data.len() {
                    seq![info]
                } else {
                    seq![info] + spec_boxes_from(data, offset + info.total_size)
                }
            },
        }
    }
}

/// The top-level boxes of `data`.
pub open spec fn spec_iter_boxes(data: Seq<u8>) -> Seq<BoxInfo> {
    spec_boxes_from(data, 0)
}

/// The first box of `boxes` whose type is `box_type`.
pub open spec fn spec_first_of_type(boxes: Seq<BoxInfo>, box_type: Seq<u8>) -> Option<BoxInfo>
    decreases boxes.len(),
{
    if boxes.len() == 0 {
        None
    } else if boxes[0].box_type@ == box_type {
        Some(boxes[0])
    } else {
        spec_first_of_type(boxes.drop_first(), box_type)
    }
}

/// The first top-level box of `data` whose type is `box_type`.
pub open spec fn spec_find_box(data: Seq<u8>, box_type: Seq<u8>) -> Option<BoxInfo> {
    spec_first_of_type(spec_iter_boxes(data), box_type)
}

/// `info` lies inside `data`: its header and content are within bounds.
pub open spec fn box_within(data: Seq<u8>, info: BoxInfo) -> bool {
    &&& info.header_size <= info.total_size
    &&& info.offset + info.total_size <= data.len()
}

/// The content of the box `info` (the bytes after its header).
pub open spec fn spec_box_content(data: Seq<u8>, info: BoxInfo) -> Seq<u8> {
    data.subrange(info.offset + info.header_size, info.offset + info.total_size)
}

/// All bytes of the box `info`, header included.
pub open spec fn spec_box_raw(data: Seq<u8>, info: BoxInfo) -> Seq<u8> {
    data.subrange(info.offset as int, info.offset + info.total_size)
}

/// The 24-bit flags field of a full box, from its three bytes.
pub open spec fn flags24(b1: u8, b2: u8, b3: u8) -> u32 {
    (b1 * 65536 + b2 * 256 + b3) as u32
}

/// The three bytes that encode the low 24 bits of `flags`.
pub open spec fn flags24_bytes(flags: u32) -> Seq<u8> {
    seq![(flags / 65536 % 256) as u8, (flags / 256 % 256) as u8, (flags % 256) as u8]
}

/// The bytes of a box of type `box_type` around `content`. The size field holds
/// the total size modulo 2^32.
pub open spec fn spec_make_box(box_type: Seq<u8>, content: Seq<u8>) -> Seq<u8> {
    u32_be_bytes((8 + content.len()) as int % 0x1_0000_0000) + box_type + content
}

/// The bytes of a full box: a box whose content starts with a version byte and
/// 24 bits of flags.
pub open spec fn spec_make_fullbox(box_type: Seq<u8>, version: u8, flags: u32, content: Seq<u8>) -> Seq<u8> {
    u32_be_bytes((12 + content.len()) as int % 0x1_0000_0000) + box_type + seq![version] + flags24_bytes(flags)
        + content
}

/// The ASCII bytes of the box type `free`.
pub open spec fn free_type() -> Seq<u8> {
    seq![0x66u8, 0x72u8, 0x65u8, 0x65u8]
}

/// The header of a `free` box that holds `content_size` bytes.
pub open spec fn spec_free_header(content_size: int) -> Seq<u8> {
    u32_be_bytes((8 + content_size) % 0x1_0000_0000) + free_type()
}

/// Reads the box header at `offset`. `None` when the header does not fit.
pub fn parse_box_at(data: &[u8], offset: usize) -> (r: Option<BoxInfo>)
    ensures
        r == spec_parse_box_at(data@, offset as int),
{
    let len = data.len();
    if offset > len || len - offset < 8 {
        return None;
    }
    let size = read_u32_be(data, offset) as u64;
    let box_type: [u8; 4] = [data[offset + 4], data[offset + 5], data[offset + 6], data[offset + 7]];
    if size == 1 {
        if len - offset < 16 {
            return None;
        }
        let ext = read_u64_be(data, offset + 8);
        Some(BoxInfo { offset, header_size: 16, total_size: ext as usize, box_type })
    } else if size == 0 {
        Some(BoxInfo { offset, header_size: 8, total_size: len - offset, box_type })
    } else {
        Some(BoxInfo { offset, header_size: 8, total_size: size as usize, box_type })
    }
}

/// Lists the top-level boxes of `data`, in order.
pub fn iter_boxes(data: &[u8]) -> (r: Vec<BoxInfo>)
    ensures
        r@ == spec_iter_boxes(data@),
{
    let mut result: Vec<BoxInfo> = Vec::new();
    let mut offset: usize = 0;
    let len = data.len();
    loop
        invariant_except_break
            spec_iter_boxes(data@) == result@ + spec_boxes_from(data@, offset as int),
        invariant
            len == data@.len(),
            offset <= len,
        ensures
            result@ == spec_iter_boxes(data@),
        decreases len - offset,
    {
        if len - offset < 8 {
            assert(result@ + spec_boxes_from(data@, offset as int) =~= result@);
            break;
        }
        match parse_box_at(data, offset) {
            Some(info) => {
                if info.total_size == 0 {
                    assert(result@ + spec_boxes_from(data@, offset as int) =~= result@);
                    break;
                }
                if info.total_size > len - offset {
                    assert(spec_boxes_from(data@, offset as int) == seq![info]);
                    let ghost before = result@;
                    result.push(info);
                    assert(before + spec_boxes_from(data@, offset as int) =~= result@);
                    break;
                }
                let ghost before = result@;
                let ghost old_offset = offset as int;
                offset = offset + info.total_size;
                result.push(info);
                assert(spec_boxes_from(data@, old_offset) == seq![info] + spec_boxes_from(
                    data@,
                    offset as int,
                ));
                assert(before + (seq![info] + spec_boxes_from(data@, offset as int)) =~= result@
                    + spec_boxes_from(data@, offset as int));
            },
            None => {
                assert(result@ + spec_boxes_from(data@, offset as int) =~= result@);
                break;
            },
        }
    }
    result
}

/// Whether two box types are the same four bytes.
pub fn same_type(a: &[u8; 4], b: &[u8; 4]) -> (r: bool)
    ensures
        r == (a@ == b@),
{
    let r = a[0] == b[0] && a[1] == b[1] && a[2] == b[2] && a[3] == b[3];
    if r {
        assert(a@ =~= b@);
    }
    r
}

/// The first top-level box of `data` of type `box_type`.
pub fn find_box(data: &[u8], box_type: &[u8; 4]) -> (r: Option<BoxInfo>)
    ensures
        r == spec_find_box(data@, box_type@),
{
    let boxes = iter_boxes(data);
    let mut i: usize = 0;
    assert(boxes@.skip(0) =~= boxes@);
    while i < boxes.len()
        invariant
            i <= boxes@.len(),
            boxes@ == spec_iter_boxes(data@),
            spec_find_box(data@, box_type@) == spec_first_of_type(boxes@.skip(i as int), box_type@),
        decreases boxes@.len() - i,
    {
        assert(boxes@.skip(i as int)[0] == boxes@[i as int]);
        if same_type(&boxes[i].box_type, box_type) {
            return Some(boxes[i]);
        }
        assert(boxes@.skip(i as int).drop_first() =~= boxes@.skip(i + 1));
        i = i + 1;
    }
    None
}

/// The content of the box `info`: the bytes after its header.
pub fn box_content<'a>(data: &'a [u8], info: &BoxInfo) -> (r: &'a [u8])
    requires
        box_within(data@, *info),
    ensures
        r@ == spec_box_content(data@, *info),
{
    let _len = data.len();
    vstd::slice::slice_subrange(data, info.offset + info.header_size, info.offset + info.total_size)
}

/// All bytes of the box `info`, header included.
pub fn box_raw<'a>(data: &'a [u8], info: &BoxInfo) -> (r: &'a [u8])
    requires
        info.offset + info.total_size <= data@.len(),
    ensures
        r@ == spec_box_raw(data@, *info),
{
    let _len = data.len();
    vstd::slice::slice_subrange(data, info.offset, info.offset + info.total_size)
}

/// Splits the content of a full box into version, flags and the rest.
pub fn fullbox_parse(content: &[u8]) -> (r: (u8, u32, &[u8]))
    requires
        content@.len() >= 4,
    ensures
        r.0 == content@[0],
        r.1 == flags24(content@[1], content@[2], content@[3]),
        r.2@ == content@.subrange(4, content@.len() as int),
{
    let version = content[0];
    let flags = (content[1] as u32) * 65536 + (content[2] as u32) * 256 + (content[3] as u32);
    (version, flags, vstd::slice::slice_subrange(content, 4, content.len()))
}

// ===== Box Writing =====

/// A 32-bit size field for `len` bytes after a header of `header` bytes:
/// the total modulo 2^32.
fn size_field(len: usize, header: u32) -> (r: u32)
    requires
        header <= 16,
    ensures
        r == (header + len) % 0x1_0000_0000,
{
    let wide = len as u64;
    let r = ((wide % 0x1_0000_0000 + header as u64) % 0x1_0000_0000) as u32;
    proof {
        vstd::arithmetic::div_mod::lemma_add_mod_noop(wide as int, header as int, 0x1_0000_0000);
    }
    r
}

/// A box of type `box_type` around `content`.
pub fn make_box(box_type: &[u8; 4], content: &[u8]) -> (r: Vec<u8>)
    ensures
        r@ == spec_make_box(box_type@, content@),
{
    let size = size_field(content.len(), 8);
    let mut buf: Vec<u8> = Vec::new();
    write_u32_be(&mut buf, size);
    write_bytes(&mut buf, box_type);
    write_bytes(&mut buf, content);
    buf
}

/// A full box of type `box_type` with the given version and flags around `content`.
pub fn make_fullbox(box_type: &[u8; 4], version: u8, flags: u32, content: &[u8]) -> (r: Vec<u8>)
    ensures
        r@ == spec_make_fullbox(box_type@, version, flags, content@),
{
    let size = size_field(content.len(), 12);
    let mut buf: Vec<u8> = Vec::new();
    write_u32_be(&mut buf, size);
    write_bytes(&mut buf, box_type);
    buf.push(version);
    buf.push(((flags / 65536) % 256) as u8);
    buf.push(((flags / 256) % 256) as u8);
    buf.push((flags % 256) as u8);
    write_bytes(&mut buf, content);
    assert(buf@ =~= spec_make_fullbox(box_type@, version, flags, content@));
    buf
}

/// The header of a `free` box that holds `content_size` bytes.
pub fn make_free_header(content_size: usize) -> (r: [u8; 8])
    ensures
        r@ == spec_free_header(content_size as int),
{
    let size = size_field(content_size, 8);
    let r: [u8; 8] = [
        (size / 16777216) as u8,
        ((size / 65536) % 256) as u8,
        ((size / 256) % 256) as u8,
        (size % 256) as u8,
        0x66u8,
        0x72u8,
        0x65u8,
        0x65u8,
    ];
    assert(r@ =~= spec_free_header(content_size as int));
    r
}

// ===== Laws =====

/// A box built by `make_box` and placed at `off` inside `data` is read back by
/// `parse_box_at` with its type and size, and its content is what was given.
pub proof fn lemma_make_box_parses(data: Seq<u8>, off: int, box_type: Seq<u8>, content: Seq<u8>)
    requires
        box_type.len() == 4,
        8 + content.len() <= u32::MAX,
        0 <= off,
        off + 8 + content.len() <= data.len(),
        data.len() <= usize::MAX,
        data.subrange(off, off + 8 + content.len()) == spec_make_box(box_type, content),
    ensures
        spec_parse_box_at(data, off) matches Some(info) && {
            &&& info.offset == off
            &&& info.header_size == 8
            &&& info.total_size == 8 + content.len()
            &&& info.box_type@ == box_type
            &&& box_within(data, info)
            &&& spec_box_content(data, info) == content
        },
{
    let b = spec_make_box(box_type, content);
    let n = 8 + content.len() as int;
    assert(data.subrange(off, off + 4) =~= b.subrange(0, 4));
    assert(b.subrange(0, 4) =~= u32_be_bytes(n));
    lemma_be32_of(data, off, n);
    let info = spec_parse_box_at(data, off).unwrap();
    assert(data[off + 4] == b[4]);
    assert(data[off + 5] == b[5]);
    assert(data[off + 6] == b[6]);
    assert(data[off + 7] == b[7]);
    assert(info.box_type@ =~= box_type);
    assert(spec_box_content(data, info) =~= data.subrange(off, off + n).subrange(8, n));
    assert(b.subrange(8, n) =~= content);
}

/// A full box built by `make_fullbox` and placed at `off` inside `data` is read
/// back by `parse_box_at`, and `fullbox_parse` of its content gives back the
/// version, the low 24 bits of the flags, and the content.
pub proof fn lemma_make_fullbox_parses(
    data: Seq<u8>,
    off: int,
    box_type: Seq<u8>,
    version: u8,
    flags: u32,
    content: Seq<u8>,
)
    requires
        box_type.len() == 4,
        12 + content.len() <= u32::MAX,
        0 <= off,
        off + 12 + content.len() <= data.len(),
        data.len() <= usize::MAX,
        data.subrange(off, off + 12 + content.len()) == spec_make_fullbox(
            box_type,
            version,
            flags,
            content,
        ),
    ensures
        spec_parse_box_at(data, off) matches Some(info) && {
            let c = spec_box_content(data, info);
            &&& info.offset == off
            &&& info.header_size == 8
            &&& info.total_size == 12 + content.len()
            &&& info.box_type@ == box_type
            &&& box_within(data, info)
            &&& c.len() >= 4
            &&& c[0] == version
            &&& flags24(c[1], c[2], c[3]) == flags % 0x100_0000
            &&& c.subrange(4, c.len() as int) == content
        },
{
    let inner = seq![version] + flags24_bytes(flags) + content;
    assert(spec_make_fullbox(box_type, version, flags, content) =~= spec_make_box(box_type, inner));
    lemma_make_box_parses(data, off, box_type, inner);
    let info = spec_parse_box_at(data, off).unwrap();
    let c = spec_box_content(data, info);
    assert(c =~= inner);
    assert(c[1] == (flags / 65536 % 256) as u8);
    assert(c[2] == (flags / 256 % 256) as u8);
    assert(c[3] == (flags % 256) as u8);
    assert(flags24(c[1], c[2], c[3]) == flags % 0x100_0000) by (nonlinear_arith)
        requires
            c[1] == (flags / 65536 % 256) as u8,
            c[2] == (flags / 256 % 256) as u8,
            c[3] == (flags % 256) as u8,
    ;
    assert(c.subrange(4, c.len() as int) =~= content);
}

/// The top-level boxes of a buffer made of one box built by `make_box` are
/// exactly that box.
pub proof fn lemma_make_box_iter(box_type: Seq<u8>, content: Seq<u8>)
    requires
        box_type.len() == 4,
        8 + content.len() <= u32::MAX,
    ensures
        spec_iter_boxes(spec_make_box(box_type, content)).len() == 1,
        spec_iter_boxes(spec_make_box(box_type, content))[0].box_type@ == box_type,
        spec_iter_boxes(spec_make_box(box_type, content))[0].total_size == 8 + content.len(),
{
    let b = spec_make_box(box_type, content);
    assert(b.subrange(0, 8 + content.len() as int) =~= b);
    lemma_make_box_parses(b, 0, box_type, content);
    let info = spec_parse_box_at(b, 0).unwrap();
    assert(spec_boxes_from(b, 8 + content.len() as int) =~= Seq::<BoxInfo>::empty());
    assert(spec_iter_boxes(b) =~= seq![info]);
}

/// The header built by `make_free_header` is read back as a `free` box that
/// holds `content_size` bytes.
pub proof fn lemma_free_header_parses(content_size: int)
    requires
        0 <= content_size,
        8 + content_size <= u32::MAX,
    ensures
        spec_parse_box_at(spec_free_header(content_size), 0) matches Some(info) && {
            &&& info.header_size == 8
            &&& info.total_size == 8 + content_size
            &&& info.box_type@ == free_type()
        },
{
    let h = spec_free_header(content_size);
    assert(h.subrange(0, 4) =~= u32_be_bytes(8 + content_size));
    lemma_be32_of(h, 0, 8 + content_size);
    let info = spec_parse_box_at(h, 0).unwrap();
    assert(info.box_type@ =~= free_type());
}

} // verus!
