// MP4 box parsing, and box writing in place: a box is started in a buffer,
// its content appended, and its size filled in when it is finished.
use vstd::prelude::*;

pub use crate::mp4_box::{
    box_content, box_raw, find_box, fullbox_parse, iter_boxes, make_free_header, parse_box_at,
    BoxInfo,
};
use crate::binary::{u32_be_bytes, write_bytes, write_u32_be};
use crate::mp4_box::{flags24_bytes, spec_make_box, spec_make_fullbox};

verus! {

/// A box begun in a buffer: where its header starts. `finish` fills in its
/// size once its content has been written after the header.
#[must_use]
pub struct BoxStart {
    start: usize,
}

impl BoxStart {
    /// Offset in the buffer where the box begins.
    pub closed spec fn spec_start(&self) -> int {
        self.start as int
    }

    /// Patch the size field and complete the box: the size is the number of
    /// bytes from the box's start to the end of the buffer (modulo 2^32).
    pub fn finish(self, buf: &mut Vec<u8>)
        requires
            self.spec_start() + 4 <= old(buf)@.len(),
        ensures
            final(buf)@ == spec_finished(old(buf)@, self.spec_start()),
    {
        let start = self.start;
        let size = (((buf.len() - start) as u64) % 0x1_0000_0000) as u32;
        buf.set(start, (size / 16777216) as u8);
        buf.set(start + 1, ((size / 65536) % 256) as u8);
        buf.set(start + 2, ((size / 256) % 256) as u8);
        buf.set(start + 3, (size % 256) as u8);
        assert(buf@ =~= old(buf)@.subrange(0, start as int) + u32_be_bytes(size as int) + old(
            buf,
        )@.subrange(start + 4, old(buf)@.len() as int));
    }
}

/// Begin writing a box: a placeholder size and the type. Returns the token
/// that `finish` completes.
pub fn start_box(buf: &mut Vec<u8>, box_type: &[u8; 4]) -> (r: BoxStart)
    ensures
        final(buf)@ == old(buf)@ + u32_be_bytes(0) + box_type@,
        r.spec_start() == old(buf)@.len(),
{
    let start = buf.len();
    write_u32_be(buf, 0);  // placeholder for size
    write_bytes(buf, box_type);
    BoxStart { start }
}

/// Begin writing a full box (with version + flags). Returns the token that
/// `finish` completes.
pub fn start_fullbox(buf: &mut Vec<u8>, box_type: &[u8; 4], version: u8, flags: u32) -> (r:
    BoxStart)
    ensures
        final(buf)@ == old(buf)@ + u32_be_bytes(0) + box_type@ + seq![version] + flags24_bytes(
            flags,
        ),
        r.spec_start() == old(buf)@.len(),
{
    let start = buf.len();
    write_u32_be(buf, 0);  // placeholder for size
    write_bytes(buf, box_type);
    buf.push(version);
    buf.push(((flags / 65536) % 256) as u8);
    buf.push(((flags / 256) % 256) as u8);
    buf.push((flags % 256) as u8);
    assert(final(buf)@ =~= old(buf)@ + u32_be_bytes(0) + box_type@ + seq![version]
        + flags24_bytes(flags));
    BoxStart { start }
}

/// The size field at `start` set to the length from `start` to the end.
pub open spec fn spec_finished(buf: Seq<u8>, start: int) -> Seq<u8> {
    buf.subrange(0, start) + u32_be_bytes((buf.len() - start) % 0x1_0000_0000) + buf.subrange(
        start + 4,
        buf.len() as int,
    )
}

/// Law: starting a box, writing its content and finishing it appends exactly
/// the box that `make_box` builds around that content.
pub proof fn lemma_finished_box(prefix: Seq<u8>, box_type: Seq<u8>, content: Seq<u8>)
    requires
        box_type.len() == 4,
    ensures
        spec_finished(prefix + u32_be_bytes(0) + box_type + content, prefix.len() as int) == prefix
            + spec_make_box(box_type, content),
{
    let b = prefix + u32_be_bytes(0) + box_type + content;
    let p = prefix.len() as int;
    assert(b.subrange(0, p) =~= prefix);
    assert(b.subrange(p + 4, b.len() as int) =~= box_type + content);
    assert(spec_finished(b, p) =~= prefix + spec_make_box(box_type, content));
}

/// Law: starting a full box, writing its content and finishing it appends
/// exactly the full box that `make_fullbox` builds around that content.
pub proof fn lemma_finished_fullbox(
    prefix: Seq<u8>,
    box_type: Seq<u8>,
    version: u8,
    flags: u32,
    content: Seq<u8>,
)
    requires
        box_type.len() == 4,
    ensures
        spec_finished(
            prefix + u32_be_bytes(0) + box_type + seq![version] + flags24_bytes(flags) + content,
            prefix.len() as int,
        ) == prefix + spec_make_fullbox(box_type, version, flags, content),
{
    let b = prefix + u32_be_bytes(0) + box_type + seq![version] + flags24_bytes(flags) + content;
    let p = prefix.len() as int;
    assert(b.subrange(0, p) =~= prefix);
    assert(b.subrange(p + 4, b.len() as int) =~= box_type + seq![version] + flags24_bytes(flags)
        + content);
    assert(spec_finished(b, p) =~= prefix + spec_make_fullbox(box_type, version, flags, content));
}

} // verus!
