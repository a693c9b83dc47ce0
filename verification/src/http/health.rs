use vstd::prelude::*;

verus! {

/// The answer to a liveness probe: the status code and body.
pub fn live() -> (out: (u16, &'static str))
    ensures
        out.0 == 200 && out.1@ == "LIVE"@,
{
    (200, "LIVE")
}

/// The answer to a readiness probe: ready once every service is, pending
/// until then.
pub fn ready(asset: bool, data: bool, schema: bool, search: bool, version: bool) -> (out: (u16, &'static str))
    ensures
        (asset && data && schema && search && version) ==> out.0 == 200 && out.1@ == "READY"@,
        !(asset && data && schema && search && version) ==> out.0 == 503 && out.1@ == "PENDING"@,
{
    if asset && data && schema && search && version {
        (200, "READY")
    } else {
        (503, "PENDING")
    }
}

} // verus!
