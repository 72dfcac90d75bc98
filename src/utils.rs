use vstd::prelude::*;

verus! {

/// Mode for sockets, pin directories and pin files: read/write for owner and group only.
pub const SOCK_MODE: u32 = 0o0660;

/// `pat` occurs as a contiguous run of characters somewhere in `s`.
pub open spec fn has_infix(s: Seq<char>, pat: Seq<char>) -> bool {
    exists|i: int| 0 <= i && i + pat.len() <= s.len() && #[trigger] s.subrange(i, i + pat.len()) == pat
}

/// Relies on `str::contains` with a `&str` pattern: true exactly when the pattern
/// matches a sub-slice of the string.
#[verifier::external_body]
fn str_contains(s: &str, pat: &str) -> (r: bool)
    ensures
        r == has_infix(s@, pat@),
{
    s.contains(pat)
}

/// A map is pinned unless its name marks a per-load-initialized section.
pub open spec fn map_is_pinnable(name: Seq<char>) -> bool {
    !(has_infix(name, ".rodata"@) || has_infix(name, ".bss"@) || has_infix(name, ".data"@))
}

/// Decides whether a map may be pinned and shared: maps of the `.rodata`, `.bss`
/// and `.data` sections are initialized by each load and are never pinned.
pub fn should_map_be_pinned(name: &str) -> (r: bool)
    ensures
        r == map_is_pinnable(name@),
{
    !(str_contains(name, ".rodata") || str_contains(name, ".bss") || str_contains(name, ".data"))
}

/// Relies on `nix::net::if_::if_nametoindex`: it returns `Ok` only with a nonzero
/// index (a zero from the C call becomes an error). Whether a name resolves depends
/// on the machine, so nothing more is stated.
#[verifier::external_body]
pub(crate) fn lookup_ifindex(iface: &str) -> (r: Option<u32>)
    ensures
        r matches Some(i) ==> i != 0,
{
    nix::net::if_::if_nametoindex(iface).ok()
}

/// Maps the outcome of an interface lookup to the manager's result.
pub fn ifindex_from_lookup(found: Option<u32>) -> (r: Result<u32, crate::errors::BpfmanError>)
    ensures
        found matches Some(i) ==> r == Ok::<u32, crate::errors::BpfmanError>(i),
        found is None ==> r matches Err(crate::errors::BpfmanError::InvalidInterface),
{
    match found {
        Some(i) => Ok(i),
        None => Err(crate::errors::BpfmanError::InvalidInterface),
    }
}

/// Resolves an interface name to its kernel index, failing with `InvalidInterface`
/// when the kernel knows no such interface.
pub fn get_ifindex(iface: &str) -> (r: Result<u32, crate::errors::BpfmanError>)
    ensures
        r matches Ok(i) ==> i != 0,
        r matches Err(e) ==> e is InvalidInterface,
{
    ifindex_from_lookup(lookup_ifindex(iface))
}

} // verus!
