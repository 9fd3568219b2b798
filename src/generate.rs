//! The request to build a snapshot file from a disassembler's project, and
//! the name of the file it writes.
use vstd::prelude::*;
use vstd::string::StringExecFns;

verus! {

/// The disassembler that produced a project.
#[derive(Clone, Copy, PartialEq, Eq, Structural, Debug)]
pub enum Backend {
    Ghidra,
    Rizin,
}

/// Build a snapshot file from the project at `proj`, written to `output`
/// or, without one, next to the working directory under the project's file
/// name with the `.exdb` extension.
#[derive(Clone, Debug)]
pub struct Generate {
    pub backend: Backend,
    pub proj: String,
    pub output: Option<String>,
}

/// The final component of the path `p`, if it has one.
pub uninterp spec fn path_file_name(p: Seq<char>) -> Option<Seq<char>>;

/// Relies on std::path::Path::file_name: the final component of a path,
/// none where the path ends in `..` or is a root. The component of a path
/// given as a `String` is valid UTF-8, so the conversion loses nothing.
#[verifier::external_body]
fn file_name(p: &String) -> (r: Option<String>)
    ensures
        match r {
            Some(f) => path_file_name(p@) == Some(f@),
            None => path_file_name(p@).is_none(),
        },
{
    std::path::Path::new(p.as_str()).file_name().map(|f| f.to_string_lossy().into_owned())
}

impl Generate {
    /// The file the snapshot is written to: the requested output, else the
    /// project's file name with `.exdb` appended; none where the project
    /// path has no file name.
    pub fn out_file(&self) -> (r: Option<String>)
        ensures
            match self.output {
                Some(o) => r == Some(o),
                None => match path_file_name(self.proj@) {
                    Some(f) => r.is_some() && r.unwrap()@ == f + ".exdb"@,
                    None => r.is_none(),
                },
            },
    {
        match &self.output {
            Some(o) => Some(o.clone()),
            None => match file_name(&self.proj) {
                Some(f) => Some(f.concat(".exdb")),
                None => None,
            },
        }
    }
}

} // verus!
