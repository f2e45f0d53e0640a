//! The commands of the `rzx` tool and what each one asks for.
use vstd::prelude::*;

verus! {

/// A parsed command line.
pub struct Cli {
    pub command: Commands,
}

/// The commands of the tool.
pub enum Commands {
    /// Create a new RZX archive.
    Create {
        /// Output archive file.
        output: String,
        /// Files and directories to compress.
        inputs: Vec<String>,
        /// Compression level (1-9).
        level: u8,
        /// Compression algorithm (deflate, lzma, zstd).
        algorithm: String,
        /// Encryption algorithm (none, aes256gcm).
        encryption: String,
        /// Password for encryption.
        password: Option<String>,
        /// Exclude patterns.
        exclude: Vec<String>,
        /// Verbose output.
        verbose: bool,
    },
    /// Extract files from an RZX archive.
    Extract {
        /// Archive file to extract.
        archive: String,
        /// Output directory.
        output: String,
        /// Password for decryption.
        password: Option<String>,
        /// Overwrite existing files.
        force: bool,
        /// Verbose output.
        verbose: bool,
    },
    /// List the contents of an RZX archive.
    List {
        /// Archive file to list.
        archive: String,
        /// Password for decryption.
        password: Option<String>,
        /// Show detailed information.
        detailed: bool,
    },
    /// Test archive integrity.
    Test {
        /// Archive file to test.
        archive: String,
        /// Password for decryption.
        password: Option<String>,
        /// Verbose output.
        verbose: bool,
    },
    /// Show information about an archive.
    Info {
        /// Archive file to analyze.
        archive: String,
        /// Password for decryption.
        password: Option<String>,
    },
}

} // verus!
