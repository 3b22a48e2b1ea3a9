//! What the command line selects: where the RIB files come from, and how the
//! run is tuned.

use vstd::prelude::*;

verus! {

/// Download the RIB files of one day into a directory, then parse them.
/// Files that are present already are not downloaded again.
#[derive(Debug)]
pub struct DownloadArgs {
    /// The directory the RIB files are downloaded to.
    pub ribs_path: String,
    /// The day, as yyyy-mm-dd.
    pub ribs_ymd: String,
}

/// Parse RIB files that exist locally.
#[derive(Debug)]
pub struct FileArgs {
    /// The MRT files to parse.
    pub rib_files: Vec<String>,
}

/// Print one record of an MRT file.
#[derive(Debug)]
pub struct PrintArgs {
    /// The place of the record in the file, counted from 0.
    pub mrt_index: u32,
    /// The MRT file to read.
    pub rib_file: String,
}

/// The three modes of a run.
#[derive(Debug)]
pub enum RibsSource {
    Download(DownloadArgs),
    File(FileArgs),
    Print(PrintArgs),
}

/// Scan MRT RIB dumps, looking for potential instances of ASN hiding.
#[derive(Debug)]
pub struct CliArgs {
    /// Run with debug level logging.
    pub debug: bool,
    pub ribs_source: RibsSource,
    /// The number of threads used for parsing MRT files.
    pub threads: u32,
}

impl CliArgs {
    /// The record to print. Only the print mode has one.
    pub fn get_mrt_index(&self) -> (r: &u32)
        requires
            self.ribs_source is Print,
        ensures
            *r == self.ribs_source->Print_0.mrt_index,
    {
        match &self.ribs_source {
            RibsSource::Print(args) => &args.mrt_index,
            _ => vstd::pervasive::unreached(),
        }
    }

    /// The download directory. Only the download mode has one.
    pub fn get_ribs_path(&self) -> (r: &str)
        requires
            self.ribs_source is Download,
        ensures
            r@ == self.ribs_source->Download_0.ribs_path@,
    {
        match &self.ribs_source {
            RibsSource::Download(args) => args.ribs_path.as_str(),
            _ => vstd::pervasive::unreached(),
        }
    }

    /// The day to download. Only the download mode has one.
    pub fn get_ribs_ymd(&self) -> (r: &str)
        requires
            self.ribs_source is Download,
        ensures
            r@ == self.ribs_source->Download_0.ribs_ymd@,
    {
        match &self.ribs_source {
            RibsSource::Download(args) => args.ribs_ymd.as_str(),
            _ => vstd::pervasive::unreached(),
        }
    }

    /// The file to print a record of. Only the print mode has one.
    pub fn get_rib_file(&self) -> (r: &String)
        requires
            self.ribs_source is Print,
        ensures
            r@ == self.ribs_source->Print_0.rib_file@,
    {
        match &self.ribs_source {
            RibsSource::Print(args) => &args.rib_file,
            _ => vstd::pervasive::unreached(),
        }
    }

    /// The files to parse. Only the file mode has them.
    pub fn get_rib_files(&self) -> (r: &Vec<String>)
        requires
            self.ribs_source is File,
        ensures
            r@ == self.ribs_source->File_0.rib_files@,
    {
        match &self.ribs_source {
            RibsSource::File(args) => &args.rib_files,
            _ => vstd::pervasive::unreached(),
        }
    }

    /// Whether the run downloads its RIB files.
    pub fn download(&self) -> (r: bool)
        ensures
            r == (self.ribs_source is Download),
    {
        match &self.ribs_source {
            RibsSource::Download(_) => true,
            _ => false,
        }
    }

    /// Whether the run prints a record.
    pub fn print(&self) -> (r: bool)
        ensures
            r == (self.ribs_source is Print),
    {
        match &self.ribs_source {
            RibsSource::Print(_) => true,
            _ => false,
        }
    }
}

} // verus!
