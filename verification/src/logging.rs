//! Where the app writes its logs.
use vstd::prelude::*;

use crate::config::{home_dir, join, join_path, opt_view};

verus! {

/// The log directory for a home directory: `Library/Logs/gitferry` under
/// it, or under `.` when there is none.
pub open spec fn logs_dir_in(home: Option<Seq<char>>) -> Seq<char> {
    join_path(
        match home {
            Some(h) => h,
            None => "."@,
        },
        "Library/Logs/gitferry"@,
    )
}

/// The log directory for a given home directory.
pub fn logs_dir_for(home: Option<String>) -> (r: String)
    ensures
        r@ == logs_dir_in(opt_view(home)),
{
    match home {
        Some(h) => join(h.as_str(), "Library/Logs/gitferry"),
        None => join(".", "Library/Logs/gitferry"),
    }
}

/// The log directory of the user's home directory.
pub fn logs_dir() -> (r: String)
    ensures
        exists|home: Option<Seq<char>>| r@ == logs_dir_in(home),
{
    let h = home_dir();
    let ghost hv = opt_view(h);
    let r = logs_dir_for(h);
    assert(r@ == logs_dir_in(hv));
    r
}

} // verus!
