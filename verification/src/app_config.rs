//! Configuration as the library sees it: plain values with their documented
//! defaults. Reading and writing the configuration file, and discovering
//! platform directories, belong to the I/O code around the library.

use vstd::prelude::*;

verus! {

/// The resolved application configuration.
#[derive(Debug)]
pub struct AppConfig {
    pub data_dir: String,
    pub page_size: usize,
    pub context_size: usize,
    pub remove_stop_words: bool,
    pub stop_words_file: Option<String>,
    pub allow_page_size_overwrite: bool,
    pub allow_context_size_overwrite: bool,
    pub allow_remove_stop_words_overwrite: bool,
    pub word_distance: usize,
    pub word_distance_with_stop_words_removed: usize,
}

impl AppConfig {
    /// The documented defaults, with the given data directory.
    pub fn load(data_dir: String, stop_words_file: Option<String>) -> (r: AppConfig)
        ensures
            r.data_dir == data_dir,
            r.stop_words_file == stop_words_file,
            r.page_size == 50,
            r.context_size == 20,
            r.remove_stop_words,
            r.allow_page_size_overwrite,
            r.allow_context_size_overwrite,
            r.allow_remove_stop_words_overwrite,
            r.word_distance == 2,
            r.word_distance_with_stop_words_removed == 5,
    {
        AppConfig {
            data_dir,
            page_size: 50,
            context_size: 20,
            remove_stop_words: true,
            stop_words_file,
            allow_page_size_overwrite: true,
            allow_context_size_overwrite: true,
            allow_remove_stop_words_overwrite: true,
            word_distance: 2,
            word_distance_with_stop_words_removed: 5,
        }
    }

    /// Number of hits per page.
    pub fn page_size(&self) -> (r: usize)
        ensures
            r == self.page_size,
    {
        self.page_size
    }

    /// Words of context on each side of a snippet.
    pub fn context_size(&self) -> (r: usize)
        ensures
            r == self.context_size,
    {
        self.context_size
    }

    /// The directory scanned for transcript files.
    pub fn data_dir(&self) -> (r: String)
        ensures
            r@ == self.data_dir@,
    {
        self.data_dir.clone()
    }
}

/// A parameter a request may overwrite when the flag allows it.
#[derive(Debug)]
pub struct OverwritableParameter<T> {
    pub value: T,
    pub overwritable: bool,
}

impl<T> OverwritableParameter<T> {
    /// A parameter that requests may overwrite.
    pub fn create(value: T) -> (r: OverwritableParameter<T>)
        ensures
            r.value == value,
            r.overwritable,
    {
        OverwritableParameter { value, overwritable: true }
    }
}

/// The tunable search parameters.
#[derive(Debug)]
pub struct Parameters {
    pub page_size: OverwritableParameter<usize>,
    pub context_size: OverwritableParameter<usize>,
    pub remove_stop_words: OverwritableParameter<bool>,
    pub word_distance: OverwritableParameter<usize>,
    pub word_distance_with_stop_words_removed: OverwritableParameter<usize>,
}

impl Default for Parameters {
    /// The documented defaults.
    fn default() -> (r: Parameters)
        ensures
            r.page_size.value == 50,
            r.context_size.value == 20,
            r.remove_stop_words.value,
            r.word_distance.value == 2,
            r.word_distance_with_stop_words_removed.value == 5,
    {
        Parameters {
            page_size: OverwritableParameter::create(50),
            context_size: OverwritableParameter::create(20),
            remove_stop_words: OverwritableParameter::create(true),
            word_distance: OverwritableParameter::create(2),
            word_distance_with_stop_words_removed: OverwritableParameter::create(5),
        }
    }
}

/// The configured file locations.
#[derive(Debug)]
pub struct FilePaths {
    pub data: String,
    pub stop_words: Option<String>,
    pub word_endings: Option<String>,
}

/// Where the server listens.
#[derive(Debug)]
pub struct HostConfig {
    pub port: u16,
}

impl Default for HostConfig {
    /// The documented default port.
    fn default() -> (r: HostConfig)
        ensures
            r.port == 8000,
    {
        HostConfig { port: 8000 }
    }
}

/// The whole configuration document.
#[derive(Debug)]
pub struct MyConfig {
    pub paths: FilePaths,
    pub parameters: Parameters,
    pub host: HostConfig,
}

/// The convert subcommand's arguments.
#[derive(Debug)]
pub struct CommandConvert {
    pub source: String,
    pub destination: Option<String>,
    pub flatten: bool,
}

/// The host subcommand's arguments.
#[derive(Debug)]
pub struct CommandHost {
    pub port: Option<u16>,
}

/// A conversion request as it arrives over the wire.
#[derive(Debug)]
pub struct ConversionParameters {
    pub source: String,
    pub destination: Option<String>,
    pub flatten: bool,
}

} // verus!
