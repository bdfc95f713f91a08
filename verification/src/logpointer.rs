//! Positions of records within the log: which datafile and at which offset.

use vstd::prelude::*;

use crate::error::Result;
use crate::text::str_eq;
use crate::utils::get_serial_number;
use crate::utils::has_serial_number;
use crate::utils::serial_number_of;
use crate::utils::ACTIVE_FILE_NAME;

verus! {

/// Identity of a datafile: the single active file, or a passive file with
/// its serial number.
#[derive(Clone, Copy, Debug, PartialEq, Eq, Structural)]
pub enum DataFile {
    Active,
    Passive(u64),
}

/// Represents the position of a record on the disk: the datafile it lives
/// in, and the offset from the beginning of that file.
#[derive(Clone, Copy, Debug, PartialEq, Eq, Structural)]
pub struct LogPointer {
    pub offset: u64,
    pub file: DataFile,
}

impl LogPointer {
    /// Build a pointer into the file with the given name: the well-known
    /// active file, or a passive file whose name carries a serial number.
    pub fn new(offset: u64, file_name: &str) -> (r: Result<LogPointer>)
        ensures
            match r {
                Ok(p) => {
                    &&& p.offset == offset
                    &&& if file_name@ == ACTIVE_FILE_NAME@ {
                        p.file == DataFile::Active
                    } else {
                        has_serial_number(file_name@) && p.file == DataFile::Passive(
                            serial_number_of(file_name@) as u64,
                        )
                    }
                },
                Err(e) => file_name@ != ACTIVE_FILE_NAME@ && !has_serial_number(file_name@) && e
                    == crate::error::KvError::InvalidDatafileName,
            },
    {
        if str_eq(file_name, ACTIVE_FILE_NAME) {
            Ok(LogPointer { offset, file: DataFile::Active })
        } else {
            match get_serial_number(file_name) {
                Ok(n) => Ok(LogPointer { offset, file: DataFile::Passive(n) }),
                Err(e) => Err(e),
            }
        }
    }
}

} // verus!
