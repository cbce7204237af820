// Recipe chunks: the pieces of the described file, each either inline data
// or a reference to a source file, with its offset, size and CRC-32.
use vstd::prelude::*;

use crate::digest::{crc32, crc32_hash};

verus! {

/// What a recipe chunk holds.
pub enum ChunkContent {
    /// The bytes themselves.
    Data(Vec<u8>),
    /// A path, relative to the recipe, of a file holding the bytes.
    File(String),
}

/// A recipe chunk: `size` bytes at `offset` of the described file, with their CRC-32.
pub struct RecipeChunk {
    pub offset: u64,
    pub size: u64,
    pub crc32: u32,
    pub content: ChunkContent,
}

/// What a chunk holds, as a mathematical value.
pub ghost enum ContentView {
    Data(Seq<u8>),
    File(Seq<char>),
}

/// A recipe chunk as a mathematical value.
pub ghost struct RecipeChunkView {
    pub offset: u64,
    pub size: u64,
    pub crc32: u32,
    pub content: ContentView,
}

impl View for RecipeChunk {
    type V = RecipeChunkView;

    open spec fn view(&self) -> RecipeChunkView {
        RecipeChunkView {
            offset: self.offset,
            size: self.size,
            crc32: self.crc32,
            content: match &self.content {
                ChunkContent::Data(d) => ContentView::Data(d@),
                ChunkContent::File(f) => ContentView::File(f@),
            },
        }
    }
}

/// Create a recipe Chunk with inline data content
pub fn make_data_chunk(offset: u64, data: Vec<u8>) -> (r: RecipeChunk)
    ensures
        r@ == (RecipeChunkView {
            offset,
            size: data@.len() as u64,
            crc32: crc32(data@),
            content: ContentView::Data(data@),
        }),
{
    let crc32 = crc32_hash(data.as_slice());
    let size = data.len() as u64;
    RecipeChunk { offset, size, crc32, content: ChunkContent::Data(data) }
}

/// Create a recipe Chunk referencing a file
pub fn make_file_chunk(offset: u64, file_path: String, file_data: &[u8]) -> (r: RecipeChunk)
    ensures
        r@ == (RecipeChunkView {
            offset,
            size: file_data@.len() as u64,
            crc32: crc32(file_data@),
            content: ContentView::File(file_path@),
        }),
{
    let crc32 = crc32_hash(file_data);
    let size = file_data.len() as u64;
    RecipeChunk { offset, size, crc32, content: ChunkContent::File(file_path) }
}

} // verus!
