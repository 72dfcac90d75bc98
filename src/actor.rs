use crate::errors::BpfmanError;
use crate::manager::{
    add_post, chain_of, describes, holds_program, names_view, remove_post, AddOutcome, BpfManager,
    ProgramInfo, RemoveOutcome,
};
use vstd::prelude::*;

verus! {

/// One request taken off the command queue. The kernel work that must precede
/// the decision (resolving the interface, loading the object) is already done
/// and its outcome travels with the request.
pub enum Request {
    Load {
        iface: String,
        ifindex: Option<u32>,
        path: String,
        priority: i32,
        section_name: String,
        loaded: Result<Vec<String>, String>,
    },
    Unload { id: u64, iface: String },
    List { iface: Option<String> },
    GetMap { iface: String, id: u64, map_name: String },
}

/// The answer sent back on a request's response channel.
pub enum Response {
    Loaded(Result<AddOutcome, BpfmanError>),
    Unloaded(Result<RemoveOutcome, BpfmanError>),
    Listed(Vec<ProgramInfo>),
    MapPath(Result<String, BpfmanError>),
}

/// Runs one request against the manager. The actor calls this for one request
/// at a time, so no two manager operations ever interleave.
pub fn handle_request(manager: &mut BpfManager, req: Request) -> (r: Response)
    requires
        old(manager).wf(),
    ensures
        final(manager).wf(),
        match req {
            Request::Load { iface, ifindex, path, priority, section_name, loaded } => r matches Response::Loaded(res)
                && add_post(*old(manager), *final(manager), iface@, ifindex, path@, priority, section_name@, loaded, res),
            Request::Unload { id, iface } => r matches Response::Unloaded(res)
                && remove_post(*old(manager), *final(manager), id, iface@, res),
            Request::List { iface } => r matches Response::Listed(v) && *final(manager) == *old(manager) && {
                let sel = match iface {
                    Some(f) => chain_of(old(manager).entries(), f@),
                    None => old(manager).entries(),
                };
                &&& v@.len() == sel.len()
                &&& forall|i: int| 0 <= i < sel.len() ==> describes(#[trigger] v@[i], sel[i])
            },
            Request::GetMap { iface, id, map_name } => r matches Response::MapPath(res) && *final(manager) == *old(manager)
                && ((exists|k: int| holds_program(old(manager).entries(), k, id, iface@)
                    && #[trigger] names_view(old(manager).entries()[k].pinned_maps@).contains(map_name@))
                    <==> res is Ok)
                && (res matches Ok(p) ==> exists|k: int| holds_program(old(manager).entries(), k, id, iface@)
                    && #[trigger] old(manager).entries()[k].path@ == p@)
                && (res matches Err(e) ==> e is NotFound),
        },
{
    match req {
        Request::Load { iface, ifindex, path, priority, section_name, loaded } => {
            Response::Loaded(manager.add_resolved(iface, ifindex, path, priority, section_name, loaded))
        },
        Request::Unload { id, iface } => Response::Unloaded(manager.remove_program(id, &iface)),
        Request::List { iface } => {
            let v = match &iface {
                Some(f) => manager.list_programs(Some(f)),
                None => manager.list_programs(None),
            };
            Response::Listed(v)
        },
        Request::GetMap { iface, id, map_name } => Response::MapPath(manager.get_map(&iface, id, &map_name)),
    }
}

} // verus!
