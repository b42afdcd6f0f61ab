//! What an open does with the files it finds.

use vstd::prelude::*;

use super::shapes::DiskOptions;
use crate::error::{Bug, Corruption, InternalError};

verus! {

/// What an open does with a directory.
#[derive(Debug, Clone, Copy, PartialEq, Eq, Structural)]
pub enum OpenPlan {
    /// An instance is created in it.
    Create,
    /// The instance it holds is opened.
    Reopen,
}

/// Decides what an open does with a directory in which the control file, the data file and the
/// journal exist or not. The options are checked first, so that a refused one leaves no half-created
/// instance.
///
/// # Errors
///
/// A bug for a pool of no frame; a corruption for a directory that holds part of an instance, naming
/// the control file if it is missing, else the data file, else the journal.
pub fn plan_open(options: DiskOptions, ctl: bool, data: bool, wal: bool) -> (r: Result<
    OpenPlan,
    InternalError,
>)
    ensures
        r == if options.buffer_pages == 0 {
            Err::<OpenPlan, InternalError>(InternalError::Bug(Bug::NoFrame))
        } else if ctl && data && wal {
            Ok(OpenPlan::Reopen)
        } else if !ctl && !data && !wal {
            Ok(OpenPlan::Create)
        } else if !ctl {
            Err(InternalError::Corruption(Corruption::NoControlFile))
        } else if !data {
            Err(InternalError::Corruption(Corruption::NoDataFile))
        } else {
            Err(InternalError::Corruption(Corruption::NoJournalFile))
        },
{
    match options.validate() {
        Ok(_) => {},
        Err(e) => {
            return Err(e);
        },
    }
    if ctl {
        if !data {
            Err(InternalError::Corruption(Corruption::NoDataFile))
        } else if !wal {
            Err(InternalError::Corruption(Corruption::NoJournalFile))
        } else {
            Ok(OpenPlan::Reopen)
        }
    } else if data || wal {
        Err(InternalError::Corruption(Corruption::NoControlFile))
    } else {
        Ok(OpenPlan::Create)
    }
}

} // verus!
