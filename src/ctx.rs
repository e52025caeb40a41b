//! Run configuration: input format, run mode and input metadata.
use vstd::prelude::*;

verus! {

/// Whether the run stands alone or is one step of a larger pipeline.
#[derive(Debug, Clone, Copy, PartialEq, Eq, Structural)]
pub enum RunMode {
    Standalone,
    Pipeline,
}

/// Whether scores are reported per cell or for the whole sample.
#[derive(Debug, Clone, Copy, PartialEq, Eq, Structural)]
pub enum Mode {
    Cell,
    Sample,
}

#[derive(Debug, Clone, Copy, PartialEq, Eq, Structural)]
pub enum InputFormat {
    Mtx10x,
    H5ad,
}

/// Matrix dimensions, once known.
#[derive(Debug, Clone, Copy, PartialEq, Eq, Structural)]
pub struct InputMeta {
    pub genes: Option<u64>,
    pub cells: Option<u64>,
    pub nnz: Option<u64>,
}

/// Relies on `std::path::Path::extension`, whose splitting of components
/// follows the platform's separators; nothing is assumed of the result.
#[verifier::external_body]
fn path_extension(path: &str) -> (r: Option<String>) {
    std::path::Path::new(path).extension().and_then(|e| e.to_str()).map(|e| e.to_string())
}

/// Relies on `std::path::Path::join`, which uses the platform's separator;
/// nothing is assumed of the result.
#[verifier::external_body]
fn join_path(dir: &str, name: &str) -> (r: String) {
    std::path::Path::new(dir).join(name).to_string_lossy().into_owned()
}

impl InputFormat {
    /// Extension `h5ad` means an H5AD file; anything else, or none, a 10x
    /// market-matrix directory.
    pub fn from_extension(ext: Option<&str>) -> (r: InputFormat)
        ensures
            (ext matches Some(e) && e@ == "h5ad"@) ==> r == InputFormat::H5ad,
            !(ext matches Some(e) && e@ == "h5ad"@) ==> r == InputFormat::Mtx10x,
    {
        let h5ad: String = "h5ad".to_owned();
        proof {
            reveal_strlit("h5ad");
        }
        match ext {
            Some(e) => {
                let e: String = e.to_owned();
                if e == h5ad {
                    InputFormat::H5ad
                } else {
                    InputFormat::Mtx10x
                }
            },
            None => InputFormat::Mtx10x,
        }
    }

    /// The format of the input at `path`, by the extension of its last
    /// component.
    pub fn detect(path: &str) -> (r: InputFormat) {
        match path_extension(path) {
            Some(e) => InputFormat::from_extension(Some(e.as_str())),
            None => InputFormat::from_extension(None),
        }
    }
}

/// The shared cache file name: `<prefix>.kira-organelle.bin` for a nonempty
/// prefix, else `kira-organelle.bin`.
pub open spec fn shared_cache_name(prefix: Option<Seq<char>>) -> Seq<char> {
    match prefix {
        Some(p) if p.len() > 0 => p + ".kira-organelle.bin"@,
        _ => "kira-organelle.bin"@,
    }
}

pub fn shared_cache_file_name(prefix: Option<&str>) -> (r: String)
    ensures
        r@ == shared_cache_name(
            match prefix {
                Some(p) => Some(p@),
                None => None,
            },
        ),
{
    proof {
        reveal_strlit(".kira-organelle.bin");
        reveal_strlit("kira-organelle.bin");
    }
    match prefix {
        Some(p) if !p.is_empty() => {
            let mut n: String = p.to_owned();
            n.append(".kira-organelle.bin");
            n
        },
        _ => "kira-organelle.bin".to_owned(),
    }
}

/// Where a shared cache for the input directory is looked for: the file
/// named by `shared_cache_file_name` inside `input_dir`.
pub fn resolve_shared_cache_path(input_dir: &str, prefix: Option<&str>) -> (r: String) {
    let name = shared_cache_file_name(prefix);
    join_path(input_dir, name.as_str())
}

} // verus!
