//! Path-flavoured datafile handles: classifying a file name as the active
//! or a passive datafile, and the location of a value within one.

use vstd::prelude::*;
use vstd::string::StringExecFns;

use crate::text::str_eq;
use crate::utils::get_serial_number;
use crate::utils::has_serial_number;
use crate::utils::serial_number_of;
use crate::utils::ACTIVE_FILE_NAME;

verus! {

/// Whether a datafile is the active one or a passive one.
#[derive(Clone, Copy, Debug, PartialEq, Eq, Structural)]
pub enum FileType {
    ACTIVE,
    PASSIVE,
}

impl FileType {
    /// Classify a file name: the well-known active file name is active,
    /// everything else is passive.
    pub fn new(file_name: &str) -> (r: FileType)
        ensures
            r == if file_name@ == ACTIVE_FILE_NAME@ {
                FileType::ACTIVE
            } else {
                FileType::PASSIVE
            },
    {
        if str_eq(file_name, ACTIVE_FILE_NAME) {
            FileType::ACTIVE
        } else {
            FileType::PASSIVE
        }
    }
}

/// A datafile under its name.
#[derive(Clone, Debug)]
pub struct DataFile {
    pub file_type: FileType,
    pub path: String,
}

impl DataFile {
    /// The serial number carried by a passive datafile's name; the active
    /// file carries none, and neither does a malformed name.
    pub fn serial_number(&self) -> (r: Option<u64>)
        ensures
            r == match self.file_type {
                FileType::ACTIVE => None::<u64>,
                FileType::PASSIVE => if has_serial_number(self.path@) {
                    Some(serial_number_of(self.path@) as u64)
                } else {
                    None::<u64>
                },
            },
    {
        match self.file_type {
            FileType::ACTIVE => None,
            FileType::PASSIVE => {
                match get_serial_number(self.path.as_str()) {
                    Ok(n) => Some(n),
                    Err(_) => None,
                }
            },
        }
    }
}

/// Represents the position of a value on the disk: the type of the datafile
/// holding it, and the offset in characters from the beginning of the file.
#[derive(Clone, Debug)]
pub struct Location {
    pub offset: u64,
    pub file: DataFile,
}

impl Location {
    /// A location at `offset` in the file with the given name.
    pub fn new(offset: u64, file_path: &str) -> (r: Location)
        ensures
            r.offset == offset,
            r.file.path@ == file_path@,
            r.file.file_type == if file_path@ == ACTIVE_FILE_NAME@ {
                FileType::ACTIVE
            } else {
                FileType::PASSIVE
            },
    {
        let file_type = FileType::new(file_path);
        Location {
            offset,
            file: DataFile { file_type, path: String::from_str(file_path) },
        }
    }
}

} // verus!
