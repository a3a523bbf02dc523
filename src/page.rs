use vstd::prelude::*;

verus! {

/// Relies on sysconf::page::pagesize: the host's page size as the system
/// reports it. Nothing is promised of its value.
#[verifier::external_body]
fn system_page_size() -> (r: usize) {
    sysconf::page::pagesize()
}

/// The host's native page size, or `None` where the system reports zero.
pub fn host_page_size() -> (r: Option<usize>)
    ensures
        r matches Some(ps) ==> ps > 0,
{
    let ps = system_page_size();
    if ps == 0 {
        None
    } else {
        Some(ps)
    }
}

} // verus!
