//! The write path's plan: which bytes go to which artifact.
use vstd::prelude::*;

use crate::error::ChunkError;
use crate::naming::{
    artifact_path,
    chunk_artifact_path,
    folder_path,
    get_file_name_from_path,
    lemma_artifact_paths_distinct,
    make_folder_path,
    path_stem,
};
use crate::plan::{chunk_bytes, split_bytes};
use crate::types::ByteHandler;

verus! {

/// One chunk to persist: its index, its artifact's path and its bytes.
pub struct ChunkArtifact {
    pub index: usize,
    pub path: String,
    pub bytes: Vec<u8>,
}

/// The folder to create and the artifacts to write into it.
pub struct SplitPlan {
    pub folder: String,
    pub artifacts: Vec<ChunkArtifact>,
}

/// `p` cuts `b` into `k` chunks, chunk `i` going to
/// `{dest}/{stem}/{i}.json` under the folder `{dest}/{stem}`.
pub open spec fn is_split_plan(p: SplitPlan, b: Seq<u8>, dest: Seq<char>, stem: Seq<char>, k: nat) -> bool {
    &&& p.folder@ == folder_path(dest, stem)
    &&& p.artifacts@.len() == k
    &&& forall|i: int|
        0 <= i < k ==> {
            &&& (#[trigger] p.artifacts@[i]).index == i
            &&& p.artifacts@[i].path@ == artifact_path(dest, stem, i as nat)
            &&& p.artifacts@[i].bytes@ == chunk_bytes(b, k, i as nat)
        }
}

/// Plans the split of a file's bytes into `no_of_file_split` artifacts under
/// `{file_bytes_split_destination}/{stem}`, where `stem` is the file name of
/// `file_read_path` without its extension. A split count of zero, or a path
/// that names no file, is refused.
pub fn file_preprocess<T: ByteHandler>(
    file_bytes: &Vec<u8>,
    file_read_path: &str,
    file_bytes_split_destination: &str,
    no_of_file_split: usize,
) -> (r: Result<SplitPlan, ChunkError>)
    ensures
        r is Ok <==> (no_of_file_split > 0 && path_stem(file_read_path@) is Some),
        r is Err ==> r == Err::<SplitPlan, ChunkError>(ChunkError::InvalidArgument),
        r matches Ok(p) ==> is_split_plan(
            p,
            file_bytes@,
            file_bytes_split_destination@,
            path_stem(file_read_path@)->0,
            no_of_file_split as nat,
        ),
{
    let stem = match get_file_name_from_path(file_read_path) {
        Ok(stem) => stem,
        Err(e) => return Err(e),
    };
    let mut chunks = match split_bytes(file_bytes, no_of_file_split) {
        Ok(chunks) => chunks,
        Err(e) => return Err(e),
    };
    let folder = make_folder_path(file_bytes_split_destination, stem.as_str());
    let ghost all = chunks@;
    let mut artifacts: Vec<ChunkArtifact> = Vec::new();
    let mut i: usize = 0;
    while i < no_of_file_split
        invariant
            chunks@ == all.subrange(i as int, no_of_file_split as int),
            all.len() == no_of_file_split,
            0 <= i <= no_of_file_split,
            artifacts@.len() == i,
            forall|j: int|
                0 <= j < no_of_file_split ==> #[trigger] all[j]@ == chunk_bytes(
                    file_bytes@,
                    no_of_file_split as nat,
                    j as nat,
                ),
            forall|j: int|
                0 <= j < i ==> {
                    &&& (#[trigger] artifacts@[j]).index == j
                    &&& artifacts@[j].path@ == artifact_path(
                        file_bytes_split_destination@,
                        stem@,
                        j as nat,
                    )
                    &&& artifacts@[j].bytes@ == chunk_bytes(
                        file_bytes@,
                        no_of_file_split as nat,
                        j as nat,
                    )
                },
        decreases no_of_file_split - i,
    {
        let bytes = chunks.remove(0);
        assert(chunks@ =~= all.subrange(i + 1, no_of_file_split as int));
        let path = chunk_artifact_path(file_bytes_split_destination, stem.as_str(), i);
        artifacts.push(ChunkArtifact { index: i, path, bytes });
        i = i + 1;
    }
    Ok(SplitPlan { folder, artifacts })
}

/// A split plan for `k` chunks names exactly `k` artifacts, one per index,
/// whatever the buffer's length: no two of them share a path, and every one
/// is written even where its chunk is empty.
pub proof fn lemma_split_plan_artifact_count(
    p: SplitPlan,
    b: Seq<u8>,
    dest: Seq<char>,
    stem: Seq<char>,
    k: nat,
)
    requires
        is_split_plan(p, b, dest, stem, k),
    ensures
        p.artifacts@.len() == k,
        forall|i: int, j: int|
            0 <= i < k && 0 <= j < k && i != j ==> (#[trigger] p.artifacts@[i]).path@
                != (#[trigger] p.artifacts@[j]).path@,
{
    assert forall|i: int, j: int|
        0 <= i < k && 0 <= j < k && i != j implies (#[trigger] p.artifacts@[i]).path@
        != (#[trigger] p.artifacts@[j]).path@ by {
        lemma_artifact_paths_distinct(dest, stem, i as nat, j as nat);
    }
}

} // verus!
