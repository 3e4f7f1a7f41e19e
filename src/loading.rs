use vstd::prelude::*;

verus! {

/// How far the session data of a file has been brought.
#[derive(PartialEq, Eq, Structural, Clone, Copy, Debug)]
pub enum LoadStage {
    /// Read from disk, still compressed.
    Compressed,
    /// Decompressed, not parsed yet.
    Uncompressed,
    /// Parsed into session data.
    Parsed,
}

/// The next piece of background work on loaded data.
#[derive(PartialEq, Eq, Structural, Clone, Copy, Debug)]
pub enum LoadWork {
    Decompress,
    Parse,
    ListGroups,
}

/// What to do with data that reached a stage: the status to show while it
/// is being worked on, and the work to submit.
pub struct LoadStep {
    pub status: String,
    pub work: LoadWork,
}

/// The status text and the work that follow stage `stage`.
pub open spec fn load_step_spec(stage: LoadStage) -> (Seq<char>, LoadWork) {
    match stage {
        LoadStage::Compressed => ("Decompressing data"@, LoadWork::Decompress),
        LoadStage::Uncompressed => ("Parsing session data"@, LoadWork::Parse),
        LoadStage::Parsed => ("Searching for tab groups"@, LoadWork::ListGroups),
    }
}

/// Decides the next step for data that reached `stage`.
pub fn next_load_step(stage: LoadStage) -> (r: LoadStep)
    ensures
        (r.status@, r.work) == load_step_spec(stage),
{
    match stage {
        LoadStage::Compressed => LoadStep { status: "Decompressing data".to_owned(), work: LoadWork::Decompress },
        LoadStage::Uncompressed => LoadStep { status: "Parsing session data".to_owned(), work: LoadWork::Parse },
        LoadStage::Parsed => LoadStep { status: "Searching for tab groups".to_owned(), work: LoadWork::ListGroups },
    }
}

} // verus!
