//! The downstream service as the library sees it: a named unit whose
//! control actions run outside the library, and the exact rendering of a
//! control action's outcome.  Running the actions is process work and
//! stays with the surrounding program; what the library owns is the name
//! and the report format.

use vstd::prelude::*;
use crate::strutil::trim_spec;
use crate::strutil::trim_str;

verus! {

/// Outcome of one control action on the service process.
pub struct ServiceResult {
    pub success: bool,
    pub stdout: String,
    pub stderr: String,
}

/// Handle on the managed service: its unit name.
pub struct ServiceController {
    service_name: String,
}

impl View for ServiceController {
    type V = Seq<char>;

    closed spec fn view(&self) -> Seq<char> {
        self.service_name@
    }
}

/// The report for one action: a header with OK or an error marker, then
/// the captured output streams when they are non-empty, trimmed.
pub open spec fn format_result_spec(
    action: Seq<char>,
    success: bool,
    out: Seq<char>,
    err: Seq<char>,
) -> Seq<char> {
    let status = if success {
        "OK"@
    } else {
        "Ошибка"@
    };
    let base = action + " telemt: "@ + status + "\n"@;
    let with_out = if out.len() > 0 {
        base + out + "\n"@
    } else {
        base
    };
    let with_err = if err.len() > 0 {
        with_out + err
    } else {
        with_out
    };
    trim_spec(with_err)
}

impl ServiceController {
    pub fn new(service_name: &str) -> (r: ServiceController)
        ensures
            r@ == service_name@,
    {
        ServiceController { service_name: service_name.to_owned() }
    }

    /// The unit name, for the program part that runs the actions.
    pub fn service_name(&self) -> (r: &str)
        ensures
            r@ == self@,
    {
        self.service_name.as_str()
    }

    pub fn format_result(&self, action: &str, r: &ServiceResult) -> (out: String)
        ensures
            out@ == format_result_spec(action@, r.success, r.stdout@, r.stderr@),
    {
        let mut s = action.to_owned();
        s.append(" telemt: ");
        if r.success {
            s.append("OK");
        } else {
            s.append("Ошибка");
        }
        s.append("\n");
        if !r.stdout.as_str().is_empty() {
            s.append(r.stdout.as_str());
            s.append("\n");
        }
        if !r.stderr.as_str().is_empty() {
            s.append(r.stderr.as_str());
        }
        trim_str(s.as_str()).to_owned()
    }
}

} // verus!
