//! The command line arguments, once parsed.

use vstd::prelude::*;

verus! {

/// Arguments for generating the markdown and embeddings exports.
#[derive(Debug)]
pub struct Args {
    /// Project directory to process.
    pub dir: Option<String>,
    /// Output file path for the generated markdown.
    pub output_file_path: Option<String>,
    /// Disable verbose output.
    pub quiet: bool,
    /// Preset prompt template to use.
    pub prompt: Option<String>,
}

impl Args {
    /// Returns true when verbose logging is requested.
    pub fn verbose(&self) -> (verbose: bool)
        ensures
            verbose == !self.quiet,
    {
        !self.quiet
    }

    /// Returns the target directory, defaulting to the current working
    /// directory.
    pub fn dir(&self) -> (dir: String)
        ensures
            dir@ == match self.dir {
                Some(given) => given@,
                None => "."@,
            },
    {
        match &self.dir {
            Some(given) => given.clone(),
            None => ".".to_owned(),
        }
    }

    /// Returns the output path for markdown, defaulting to `prompt.md`.
    pub fn output_file_path(&self) -> (path: String)
        ensures
            path@ == match self.output_file_path {
                Some(given) => given@,
                None => "prompt.md"@,
            },
    {
        match &self.output_file_path {
            Some(given) => given.clone(),
            None => "prompt.md".to_owned(),
        }
    }
}

} // verus!
