//! The arguments of a run and the rules they must meet.
use crate::text::same_text;
use vstd::prelude::*;
use vstd::string::StringExecFns;

verus! {

/// The arguments of a run: the annotation file to read, the `.chrom` file to
/// write, the number of worker threads, and the attribute whose values
/// identify the records.
#[derive(Debug)]
pub struct Args {
    pub gxf: String,
    pub output: String,
    pub threads: usize,
    pub feature: String,
}

/// What the file system tells of the input path.
#[derive(Debug, Clone, Copy)]
pub struct InputFile {
    /// The path leads to something.
    pub exists: bool,
    /// The size of the file in bytes.
    pub len: u64,
}

/// Why the arguments are refused.
#[derive(Debug)]
pub enum ArgError {
    /// The input file does not exist, is empty, or is no GTF or GFF3 file.
    InvalidInput(String),
    /// The output file is no `.chrom` file.
    InvalidOutput(String),
    /// The number of threads is 0 or more than the machine has CPUs.
    InvalidThreads(String),
    /// The attribute name is empty.
    InvalidFeature(String),
}

/// An `ArgError`, with its message as characters.
pub enum Fault {
    Input(Seq<char>),
    Output(Seq<char>),
    Threads(Seq<char>),
    Feature(Seq<char>),
}

impl View for ArgError {
    type V = Fault;

    open spec fn view(&self) -> Fault {
        match self {
            ArgError::InvalidInput(why) => Fault::Input(why@),
            ArgError::InvalidOutput(why) => Fault::Output(why@),
            ArgError::InvalidThreads(why) => Fault::Threads(why@),
            ArgError::InvalidFeature(why) => Fault::Feature(why@),
        }
    }
}

/// The fault that a check reports, if it reports one.
pub open spec fn outcome(r: Result<(), ArgError>) -> Option<Fault> {
    match r {
        Ok(_) => None,
        Err(e) => Some(e@),
    }
}

impl ArgError {
    /// The words that report the error.
    pub open spec fn text(self) -> Seq<char> {
        match self {
            ArgError::InvalidInput(why) => "Invalid input: "@ + why@,
            ArgError::InvalidOutput(why) => "Invalid output: "@ + why@,
            ArgError::InvalidThreads(why) => "Invalid number of threads: "@ + why@,
            ArgError::InvalidFeature(why) => "Invalid feature: "@ + why@,
        }
    }

    /// The words that report the error.
    pub fn message(&self) -> (m: String)
        ensures
            m@ == self.text(),
    {
        match self {
            ArgError::InvalidInput(why) => String::from_str("Invalid input: ").concat(
                why.as_str(),
            ),
            ArgError::InvalidOutput(why) => String::from_str("Invalid output: ").concat(
                why.as_str(),
            ),
            ArgError::InvalidThreads(why) => String::from_str("Invalid number of threads: ").concat(
                why.as_str(),
            ),
            ArgError::InvalidFeature(why) => String::from_str("Invalid feature: ").concat(
                why.as_str(),
            ),
        }
    }
}

/// `std::path::Path::extension` on the path, as a string: what follows the
/// last dot of the file name, if the path has one.
#[verifier::external_body]
fn path_extension(path: &String) -> Option<String> {
    match std::path::Path::new(path).extension() {
        Some(extension) => Some(extension.to_string_lossy().into_owned()),
        None => None,
    }
}

/// The path as `Debug` prints a `std::path::Path`: in quotes, with escapes.
#[verifier::external_body]
fn path_text(path: &String) -> String {
    format!("{:?}", std::path::Path::new(path))
}

/// `num_cpus::get`: the number of logical CPUs that this process may use.
#[verifier::external_body]
fn logical_cpus() -> usize {
    num_cpus::get()
}

/// The extension of an annotation file: `gff`, `gtf`, `gff3` or `gz`.
pub open spec fn is_annotation_extension(extension: Option<Seq<char>>) -> bool {
    extension matches Some(e) && (e == "gff"@ || e == "gtf"@ || e == "gff3"@ || e == "gz"@)
}

/// The extension of an output file: `chrom`.
pub open spec fn is_chrom_extension(extension: Option<Seq<char>>) -> bool {
    extension == Some("chrom"@)
}

/// The characters of an optional string.
pub open spec fn option_view(s: Option<String>) -> Option<Seq<char>> {
    match s {
        Some(s) => Some(s@),
        None => None,
    }
}

/// `"file "`, the quoted path, and what is wrong with the file.
pub open spec fn file_message(quoted: Seq<char>, fault: Seq<char>) -> Seq<char> {
    "file "@ + quoted + fault
}

/// The fault of the input file: it must exist, carry the extension of an
/// annotation file, and not be empty.
pub open spec fn input_fault(
    quoted: Seq<char>,
    extension: Option<Seq<char>>,
    input: InputFile,
) -> Option<Fault> {
    if !input.exists {
        Some(Fault::Input(file_message(quoted, " does not exist"@)))
    } else if !is_annotation_extension(extension) {
        Some(
            Fault::Input(
                file_message(
                    quoted,
                    " is not a GTF or GFF3 file, please specify the correct format"@,
                ),
            ),
        )
    } else if input.len == 0 {
        Some(Fault::Input(file_message(quoted, " is empty"@)))
    } else {
        None
    }
}

/// The fault of the output file: its extension must be `chrom`.
pub open spec fn output_fault(quoted: Seq<char>, extension: Option<Seq<char>>) -> Option<Fault> {
    if !is_chrom_extension(extension) {
        Some(Fault::Output(file_message(quoted, " is not a .chrom file"@)))
    } else {
        None
    }
}

/// The fault of the number of threads: at least one thread, and no more
/// threads than CPUs.
pub open spec fn threads_fault(threads: usize, cpus: usize) -> Option<Fault> {
    if threads == 0 {
        Some(Fault::Threads("number of threads must be greater than 0"@))
    } else if threads > cpus {
        Some(
            Fault::Threads(
                "number of threads must be less than or equal to the number of logical CPUs"@,
            ),
        )
    } else {
        None
    }
}

/// The fault of the attribute name: it must not be empty.
pub open spec fn feature_fault(feature: Seq<char>) -> Option<Fault> {
    if feature.len() == 0 {
        Some(Fault::Feature("feature must not be empty"@))
    } else {
        None
    }
}

/// The first of the two faults.
pub open spec fn or_else(first: Option<Fault>, second: Option<Fault>) -> Option<Fault> {
    if first is Some {
        first
    } else {
        second
    }
}

/// What the machine tells about the arguments: both paths as `Debug` prints
/// them, their extensions, and the number of logical CPUs.
pub struct Answers {
    pub input_path: Seq<char>,
    pub input_extension: Option<Seq<char>>,
    pub output_path: Seq<char>,
    pub output_extension: Option<Seq<char>>,
    pub cpus: usize,
}

impl Args {
    /// The first fault of the arguments in the order input, output, threads,
    /// feature, given what the file system and the machine tell.
    pub open spec fn fault(self, input: InputFile, answers: Answers) -> Option<Fault> {
        or_else(
            input_fault(answers.input_path, answers.input_extension, input),
            or_else(
                output_fault(answers.output_path, answers.output_extension),
                or_else(threads_fault(self.threads, answers.cpus), feature_fault(self.feature@)),
            ),
        )
    }
}

/// `"file "`, the quoted path, and what is wrong with the file.
fn file_error(quoted: &String, fault: &str) -> (r: String)
    ensures
        r@ == file_message(quoted@, fault@),
{
    let mut r = String::from_str("file ");
    r.append(quoted.as_str());
    r.append(fault);
    r
}

/// Judges the input file from what is known of it: it must exist, carry the
/// extension of an annotation file, and not be empty.
pub fn input_verdict(
    quoted: &String,
    extension: &Option<String>,
    input: &InputFile,
) -> (r: Result<(), ArgError>)
    ensures
        outcome(r) == input_fault(quoted@, option_view(*extension), *input),
{
    if !input.exists {
        return Err(ArgError::InvalidInput(file_error(quoted, " does not exist")));
    }
    let known = match extension {
        Some(e) => same_text(e.as_str(), "gff") || same_text(e.as_str(), "gtf") || same_text(
            e.as_str(),
            "gff3",
        ) || same_text(e.as_str(), "gz"),
        None => false,
    };
    if !known {
        return Err(
            ArgError::InvalidInput(
                file_error(quoted, " is not a GTF or GFF3 file, please specify the correct format"),
            ),
        );
    }
    if input.len == 0 {
        return Err(ArgError::InvalidInput(file_error(quoted, " is empty")));
    }
    Ok(())
}

/// Judges the output file from its extension, which must be `chrom`.
pub fn output_verdict(quoted: &String, extension: &Option<String>) -> (r: Result<(), ArgError>)
    ensures
        outcome(r) == output_fault(quoted@, option_view(*extension)),
{
    let chrom = match extension {
        Some(e) => same_text(e.as_str(), "chrom"),
        None => false,
    };
    if !chrom {
        return Err(ArgError::InvalidOutput(file_error(quoted, " is not a .chrom file")));
    }
    Ok(())
}

/// Judges the number of threads against the number of CPUs: at least one
/// thread, and no more threads than CPUs.
pub fn threads_verdict(threads: usize, cpus: usize) -> (r: Result<(), ArgError>)
    ensures
        outcome(r) == threads_fault(threads, cpus),
{
    if threads == 0 {
        Err(
            ArgError::InvalidThreads(String::from_str("number of threads must be greater than 0")),
        )
    } else if threads > cpus {
        Err(
            ArgError::InvalidThreads(
                String::from_str(
                    "number of threads must be less than or equal to the number of logical CPUs",
                ),
            ),
        )
    } else {
        Ok(())
    }
}

impl Args {
    /// Checks all the arguments, in the order input, output, threads,
    /// feature, and returns the first fault.
    ///
    /// The extensions of the two paths and the number of CPUs are asked of
    /// the machine: the result is the first fault for what it answers.
    pub fn check(&self, input: &InputFile) -> (r: Result<(), ArgError>)
        ensures
            exists|answers: Answers| outcome(r) == #[trigger] self.fault(*input, answers),
    {
        self.validate_args(input)
    }

    /// Checks the input file: it must exist, be a GTF or GFF3 file by its
    /// extension, plain or gzipped, and not be empty.
    pub fn check_input(&self, input: &InputFile) -> (r: Result<(), ArgError>)
        ensures
            exists|quoted: Seq<char>, extension: Option<Seq<char>>|
                outcome(r) == #[trigger] input_fault(quoted, extension, *input),
    {
        let quoted = path_text(&self.gxf);
        let extension = path_extension(&self.gxf);
        let r = input_verdict(&quoted, &extension, input);
        assert(outcome(r) == input_fault(quoted@, option_view(extension), *input));
        r
    }

    /// Checks the output file: it must be a `.chrom` file by its extension.
    pub fn check_output(&self) -> (r: Result<(), ArgError>)
        ensures
            exists|quoted: Seq<char>, extension: Option<Seq<char>>|
                outcome(r) == #[trigger] output_fault(quoted, extension),
    {
        let quoted = path_text(&self.output);
        let extension = path_extension(&self.output);
        let r = output_verdict(&quoted, &extension);
        assert(outcome(r) == output_fault(quoted@, option_view(extension)));
        r
    }

    /// Checks the number of threads: at least one, and no more than the
    /// machine has logical CPUs.
    pub fn check_threads(&self) -> (r: Result<(), ArgError>)
        ensures
            exists|cpus: usize| outcome(r) == #[trigger] threads_fault(self.threads, cpus),
    {
        let cpus = logical_cpus();
        let r = threads_verdict(self.threads, cpus);
        assert(outcome(r) == threads_fault(self.threads, cpus));
        r
    }

    /// Checks the attribute name: it must not be empty.
    pub fn check_feature(&self) -> (r: Result<(), ArgError>)
        ensures
            outcome(r) == feature_fault(self.feature@),
    {
        if self.feature.as_str().is_empty() {
            Err(ArgError::InvalidFeature(String::from_str("feature must not be empty")))
        } else {
            Ok(())
        }
    }

    /// Checks input, output, threads and feature in this order, and returns
    /// the first fault.
    pub fn validate_args(&self, input: &InputFile) -> (r: Result<(), ArgError>)
        ensures
            exists|answers: Answers| outcome(r) == #[trigger] self.fault(*input, answers),
    {
        let first = self.check_input(input);
        let ghost (input_path, input_extension) = choose|
            quoted: Seq<char>,
            extension: Option<Seq<char>>,
        | outcome(first) == #[trigger] input_fault(quoted, extension, *input);
        let ghost mut answers = Answers {
            input_path,
            input_extension,
            output_path: Seq::empty(),
            output_extension: None,
            cpus: 0,
        };
        match first {
            Err(e) => {
                assert(outcome(Err::<(), ArgError>(e)) == self.fault(*input, answers));
                return Err(e);
            },
            Ok(_) => {},
        }
        let second = self.check_output();
        proof {
            let (output_path, output_extension) = choose|
                quoted: Seq<char>,
                extension: Option<Seq<char>>,
            | outcome(second) == #[trigger] output_fault(quoted, extension);
            answers = Answers { output_path, output_extension, ..answers };
        }
        match second {
            Err(e) => {
                assert(outcome(Err::<(), ArgError>(e)) == self.fault(*input, answers));
                return Err(e);
            },
            Ok(_) => {},
        }
        let third = self.check_threads();
        proof {
            let cpus = choose|cpus: usize|
                outcome(third) == #[trigger] threads_fault(self.threads, cpus);
            answers = Answers { cpus, ..answers };
        }
        match third {
            Err(e) => {
                assert(outcome(Err::<(), ArgError>(e)) == self.fault(*input, answers));
                return Err(e);
            },
            Ok(_) => {},
        }
        let r = self.check_feature();
        assert(outcome(r) == self.fault(*input, answers));
        r
    }
}

} // verus!
