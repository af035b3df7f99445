//! Shard assembly and resume logic.
//!
//! For each n-gram order, the record source's rows are corpus references:
//! a source-file path and a byte offset.  A chunk's output is the
//! concatenation, in row order and with no inserted separator, of the line
//! each of its references resolves to.  A resume run skips every chunk
//! whose output already exists; a full run rebuilds every chunk.

use vstd::prelude::*;

use crate::chunks::{spec_chunk_width, spec_num_chunks};
use crate::file_cache::line_at;

verus! {

/// One corpus reference produced from a record row: the source file to
/// read and the byte offset of the line to extract within it.
pub struct NgramIndex {
    pub file: String,
    pub start_in_file: u64,
}

/// Maps one record row's two fields to a corpus reference.  The record
/// format's offset field is signed; the reference keeps its bits as the
/// unsigned byte offset the indexing convention stores there.
pub fn reference_from_row(file: String, start: i64) -> (r: NgramIndex)
    ensures
        r.file == file,
        r.start_in_file == start as u64,
{
    NgramIndex { file: file, start_in_file: #[verifier::truncate] (start as u64) }
}

/// The concatenation of a sequence of byte strings.
pub open spec fn concat_lines(ls: Seq<Seq<u8>>) -> Seq<u8>
    decreases ls.len(),
{
    if ls.len() == 0 {
        Seq::empty()
    } else {
        concat_lines(ls.drop_last()) + ls.last()
    }
}

/// The bytes of one shard: each reference of `refs` resolved against the
/// source files `fs`, in row order, with no inserted separator.
pub open spec fn shard_bytes(
    refs: Seq<(Seq<char>, int)>,
    fs: Map<Seq<char>, Seq<u8>>,
) -> Seq<u8>
    decreases refs.len(),
{
    if refs.len() == 0 {
        Seq::empty()
    } else {
        shard_bytes(refs.drop_last(), fs) + line_at(fs[refs.last().0], refs.last().1)
    }
}

/// The content of every chunk of one order: chunk `i` covers the rows
/// `[i * size, i * size + width(i))`.
pub open spec fn run_contents(
    rows: Seq<(Seq<char>, int)>,
    fs: Map<Seq<char>, Seq<u8>>,
    size: int,
) -> Seq<Seq<u8>> {
    Seq::new(
        spec_num_chunks(rows.len() as int, size) as nat,
        |i: int|
            shard_bytes(
                rows.subrange(i * size, i * size + spec_chunk_width(rows.len() as int, size, i)),
                fs,
            ),
    )
}

/// The outputs of a full run: every chunk is built.
pub open spec fn full_run_outputs(contents: Seq<Seq<u8>>) -> Map<int, Seq<u8>> {
    Map::new(|i: int| 0 <= i < contents.len(), |i: int| contents[i])
}

/// The outputs after a resume run over the prior outputs `existing`: a
/// chunk whose output already exists is kept as it is, every other chunk
/// is built.
pub open spec fn resume_run_outputs(
    contents: Seq<Seq<u8>>,
    existing: Map<int, Seq<u8>>,
) -> Map<int, Seq<u8>> {
    Map::new(
        |i: int| 0 <= i < contents.len(),
        |i: int|
            if existing.dom().contains(i) {
                existing[i]
            } else {
                contents[i]
            },
    )
}

/// Whether a chunk is skipped: only in resume mode, and only because its
/// output file already exists.
pub fn should_skip(resume: bool, output_exists: bool) -> (r: bool)
    ensures
        r == (resume && output_exists),
{
    resume && output_exists
}

/// Law: a resume run completes a partial run.  If every pre-existing
/// output holds exactly the bytes the deterministic content function gives
/// its chunk — as it does when a prior run wrote it and stopped — then the
/// resume run's final outputs equal a full run's, for every chunk.
pub proof fn lemma_resume_matches_full_run(
    rows: Seq<(Seq<char>, int)>,
    fs: Map<Seq<char>, Seq<u8>>,
    size: int,
    existing: Map<int, Seq<u8>>,
)
    requires
        size > 0,
        forall|i: int| #[trigger]
            existing.dom().contains(i) ==> 0 <= i < run_contents(rows, fs, size).len()
                && existing[i] == run_contents(rows, fs, size)[i],
    ensures
        resume_run_outputs(run_contents(rows, fs, size), existing) =~= full_run_outputs(
            run_contents(rows, fs, size),
        ),
{
}

/// Law: assembling the resolved lines of a chunk, in row order, yields the
/// shard's bytes.  Each line must be what its reference resolves to
/// against the source files — exactly what resolution guarantees.
pub proof fn lemma_assembled_is_shard(
    refs: Seq<(Seq<char>, int)>,
    fs: Map<Seq<char>, Seq<u8>>,
    lines: Seq<Seq<u8>>,
)
    requires
        lines.len() == refs.len(),
        forall|i: int|
            0 <= i < refs.len() ==> lines[i] == line_at(fs[(#[trigger] refs[i]).0], refs[i].1),
    ensures
        concat_lines(lines) == shard_bytes(refs, fs),
    decreases refs.len(),
{
    if refs.len() > 0 {
        lemma_assembled_is_shard(refs.drop_last(), fs, lines.drop_last());
        assert(lines.last() == line_at(fs[refs[refs.len() - 1].0], refs[refs.len() - 1].1));
    }
}

/// Concatenates resolved lines in row order, with no inserted separator.
pub fn assemble_chunk(lines: &Vec<Vec<u8>>) -> (r: Vec<u8>)
    ensures
        r@ == concat_lines(lines@.map_values(|l: Vec<u8>| l@)),
{
    let ghost gls = lines@.map_values(|l: Vec<u8>| l@);
    let mut r: Vec<u8> = Vec::new();
    let n = lines.len();
    let mut i: usize = 0;
    proof {
        assert(gls.subrange(0, 0) =~= Seq::<Seq<u8>>::empty());
        assert(r@ =~= concat_lines(gls.subrange(0, 0)));
    }
    while i < n
        invariant
            0 <= i <= n,
            n == lines@.len(),
            gls == lines@.map_values(|l: Vec<u8>| l@),
            gls.len() == n,
            r@ == concat_lines(gls.subrange(0, i as int)),
        decreases n - i,
    {
        proof {
            assert(gls.subrange(0, i + 1 as int).drop_last() =~= gls.subrange(0, i as int));
            assert(gls.subrange(0, i + 1 as int).last() == gls[i as int]);
            assert(gls[i as int] == lines@[i as int]@);
        }
        r.extend_from_slice(lines[i].as_slice());
        i = i + 1;
    }
    proof {
        assert(gls.subrange(0, n as int) =~= gls);
    }
    r
}

} // verus!
