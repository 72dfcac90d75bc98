use crate::errors::BpfmanError;
use crate::utils::{lookup_ifindex, map_is_pinnable, should_map_be_pinned};
use vstd::prelude::*;

verus! {

/// Number of tail-call slots in the dispatcher template.
pub const MAX_DISPATCHER_PROGRAMS: usize = 10;

/// One user program attached to an interface through its dispatcher.
///
/// `id` is drawn from a counter that only grows, so it doubles as the insertion
/// sequence number that breaks ties between equal priorities.
pub struct ProgramEntry {
    pub id: u64,
    pub iface: String,
    pub ifindex: u32,
    pub priority: i32,
    pub section_name: String,
    pub path: String,
    pub pinned_maps: Vec<String>,
}

/// The dispatcher currently installed on one interface.
pub struct DispatcherState {
    pub iface: String,
    pub ifindex: u32,
    /// Program ids, in the order the dispatcher tail-calls them.
    pub chain: Vec<u64>,
}

/// What the kernel side must do to make the hook match the registry.
pub enum DispatchAction {
    /// Create the interface's pin directory and attach a first dispatcher.
    Attach { iface: String, ifindex: u32, chain: Vec<u64> },
    /// Build a new dispatcher for `chain` and atomically swap it in for the live one.
    Replace { iface: String, ifindex: u32, chain: Vec<u64> },
    /// Detach and destroy the dispatcher and remove the interface's pin directory.
    Detach { iface: String, ifindex: u32 },
}

/// Result of a successful add.
pub struct AddOutcome {
    pub id: u64,
    pub action: DispatchAction,
    /// Maps of the new program that must be pinned now (not pinned already
    /// by another program loaded from the same object).
    pub maps_to_pin: Vec<String>,
}

/// Result of a successful remove.
pub struct RemoveOutcome {
    pub action: DispatchAction,
    /// Object path of the removed program, under which its maps are pinned.
    pub path: String,
    /// Maps of the removed program that no remaining program of the same object uses.
    pub maps_to_unpin: Vec<String>,
}

/// Summary of one program, as listed to clients.
pub struct ProgramInfo {
    pub id: u64,
    pub iface: String,
    pub priority: i32,
    pub section_name: String,
    pub path: String,
}

/// Owns the program registry and the per-interface dispatcher state.
pub struct BpfManager {
    programs: Vec<ProgramEntry>,
    dispatchers: Vec<DispatcherState>,
    next_id: u64,
}

pub open spec fn names_view(v: Seq<String>) -> Seq<Seq<char>> {
    v.map_values(|s: String| s@)
}

/// `a` is tail-called before `b`: lower priority first, then earlier insertion.
pub open spec fn runs_before(a: ProgramEntry, b: ProgramEntry) -> bool {
    a.priority < b.priority || (a.priority == b.priority && a.id < b.id)
}

pub open spec fn strictly_ordered(s: Seq<ProgramEntry>) -> bool {
    forall|i: int, j: int| 0 <= i < j < s.len() ==> runs_before(#[trigger] s[i], #[trigger] s[j])
}

pub open spec fn on_iface(iface: Seq<char>) -> spec_fn(ProgramEntry) -> bool {
    |e: ProgramEntry| e.iface@ == iface
}

/// The programs of one interface, in registry order.
pub open spec fn chain_of(entries: Seq<ProgramEntry>, iface: Seq<char>) -> Seq<ProgramEntry> {
    entries.filter(on_iface(iface))
}

pub open spec fn ids_of(chain: Seq<ProgramEntry>) -> Seq<u64> {
    chain.map_values(|e: ProgramEntry| e.id)
}

/// The fields of a freshly registered program.
pub open spec fn is_new_entry(
    e: ProgramEntry,
    id: u64,
    iface: Seq<char>,
    ifindex: u32,
    path: Seq<char>,
    priority: i32,
    section_name: Seq<char>,
    maps: Seq<Seq<char>>,
) -> bool {
    &&& e.id == id
    &&& e.iface@ == iface
    &&& e.ifindex == ifindex
    &&& e.path@ == path
    &&& e.priority == priority
    &&& e.section_name@ == section_name
    &&& names_view(e.pinned_maps@) == pinnable(maps)
}

pub open spec fn not_pinned_for(entries: Seq<ProgramEntry>, path: Seq<char>) -> spec_fn(Seq<char>) -> bool {
    |n: Seq<char>| !pinned_for_path(entries, path, n)
}

/// Of `names`, those that no program of `entries` loaded from `path` has pinned.
pub open spec fn unshared(entries: Seq<ProgramEntry>, path: Seq<char>, names: Seq<Seq<char>>) -> Seq<Seq<char>> {
    names.filter(not_pinned_for(entries, path))
}

pub open spec fn has_dispatcher(ds: Seq<DispatcherState>, iface: Seq<char>) -> bool {
    exists|j: int| 0 <= j < ds.len() && (#[trigger] ds[j]).iface@ == iface
}

/// Maps to pin for an object's map names: those of sections that are not
/// initialized per load.
pub open spec fn pinnable(names: Seq<Seq<char>>) -> Seq<Seq<char>> {
    names.filter(|n: Seq<char>| map_is_pinnable(n))
}

/// Some program loaded from `path` already holds a pin of map `name`.
pub open spec fn pinned_for_path(entries: Seq<ProgramEntry>, path: Seq<char>, name: Seq<char>) -> bool {
    exists|i: int|
        0 <= i < entries.len() && (#[trigger] entries[i]).path@ == path && names_view(
            entries[i].pinned_maps@,
        ).contains(name)
}

/// What `add_resolved` does, given how the interface name resolved and how the
/// program object loaded.
pub open spec fn add_post(
    old: BpfManager,
    new: BpfManager,
    iface: Seq<char>,
    ifindex: Option<u32>,
    path: Seq<char>,
    priority: i32,
    section_name: Seq<char>,
    loaded: Result<Vec<String>, String>,
    r: Result<AddOutcome, BpfmanError>,
) -> bool {
    if ifindex is None {
        r matches Err(BpfmanError::InvalidInterface) && new == old
    } else if loaded is Err {
        &&& r matches Err(BpfmanError::LoadFailure(reason)) && reason@ == loaded->Err_0@
        &&& new == old
    } else if chain_of(old.entries(), iface).len() >= MAX_DISPATCHER_PROGRAMS
        || old.next_id_spec() == u64::MAX {
        r matches Err(BpfmanError::CapacityExceeded) && new == old
    } else {
        let maps = names_view(loaded->Ok_0@);
        &&& r is Ok
        &&& r->Ok_0.id == old.next_id_spec()
        &&& exists|k: int| 0 <= k <= old.entries().len()
            && new.entries() == old.entries().insert(k, #[trigger] new.entries()[k])
            && is_new_entry(new.entries()[k], old.next_id_spec(), iface, ifindex->Some_0, path, priority, section_name, maps)
        &&& names_view(r->Ok_0.maps_to_pin@) == unshared(old.entries(), path, pinnable(maps))
        &&& if has_dispatcher(old.dispatcher_states(), iface) {
            r->Ok_0.action matches DispatchAction::Replace { iface: f, ifindex: x, chain: c }
                && f@ == iface && x == ifindex->Some_0 && c@ == ids_of(chain_of(new.entries(), iface))
        } else {
            r->Ok_0.action matches DispatchAction::Attach { iface: f, ifindex: x, chain: c }
                && f@ == iface && x == ifindex->Some_0 && c@ == ids_of(chain_of(new.entries(), iface))
        }
        &&& forall|other: Seq<char>| other != iface ==> #[trigger] chain_of(new.entries(), other) == chain_of(old.entries(), other)
    }
}

impl BpfManager {
    pub closed spec fn entries(&self) -> Seq<ProgramEntry> {
        self.programs@
    }

    pub closed spec fn dispatcher_states(&self) -> Seq<DispatcherState> {
        self.dispatchers@
    }

    pub closed spec fn next_id_spec(&self) -> u64 {
        self.next_id
    }

    /// The registry is ordered by (priority, insertion), ids are unique and below
    /// the counter, each interface has at most one dispatcher, and each dispatcher
    /// tail-calls exactly the non-empty chain of its interface.
    pub closed spec fn wf(&self) -> bool {
        let ps = self.programs@;
        let ds = self.dispatchers@;
        &&& strictly_ordered(ps)
        &&& ids_below(ps, self.next_id)
        &&& unique_ids(ps)
        &&& forall|i: int, j: int| 0 <= i < j < ds.len() ==> (#[trigger] ds[i]).iface@ != (#[trigger] ds[j]).iface@
        &&& forall|i: int| 0 <= i < ds.len() ==> {
            &&& (#[trigger] ds[i]).chain@ == ids_of(chain_of(ps, ds[i].iface@))
            &&& ds[i].chain@.len() > 0
        }
        &&& forall|i: int| 0 <= i < ps.len() ==> has_dispatcher(ds, (#[trigger] ps[i]).iface@)
    }

    /// An empty manager: no programs, no dispatchers.
    pub fn new() -> (r: Self)
        ensures
            r.wf(),
            r.entries().len() == 0,
            r.dispatcher_states().len() == 0,
            r.next_id_spec() == 1,
    {
        BpfManager { programs: Vec::new(), dispatchers: Vec::new(), next_id: 1 }
    }
}

/// One more element of a prefix either joins the filtered prefix or does not.
proof fn lemma_filter_prefix_step<A>(s: Seq<A>, i: int, pred: spec_fn(A) -> bool)
    requires
        0 <= i < s.len(),
    ensures
        s.subrange(0, i + 1).filter(pred) == (if pred(s[i]) {
            s.subrange(0, i).filter(pred).push(s[i])
        } else {
            s.subrange(0, i).filter(pred)
        }),
{
    reveal(Seq::filter);
    assert(s.subrange(0, i + 1).drop_last() == s.subrange(0, i));
}

proof fn lemma_ids_push(c: Seq<ProgramEntry>, e: ProgramEntry)
    ensures
        ids_of(c.push(e)) == ids_of(c).push(e.id),
{
    assert(ids_of(c.push(e)) =~= ids_of(c).push(e.id));
}

/// Ids of the programs of `iface`, in registry order.
fn chain_ids(programs: &Vec<ProgramEntry>, iface: &String) -> (r: Vec<u64>)
    ensures
        r@ == ids_of(chain_of(programs@, iface@)),
{
    let mut r: Vec<u64> = Vec::new();
    let mut i: usize = 0;
    while i < programs.len()
        invariant
            i <= programs.len(),
            r@ == ids_of(chain_of(programs@.subrange(0, i as int), iface@)),
        decreases programs.len() - i,
    {
        proof {
            lemma_filter_prefix_step(programs@, i as int, on_iface(iface@));
            lemma_ids_push(chain_of(programs@.subrange(0, i as int), iface@), programs@[i as int]);
        }
        if programs[i].iface == *iface {
            r.push(programs[i].id);
        }
        i += 1;
    }
    assert(programs@.subrange(0, programs.len() as int) == programs@);
    r
}

fn contains_name(v: &Vec<String>, name: &String) -> (r: bool)
    ensures
        r == names_view(v@).contains(name@),
{
    let mut i: usize = 0;
    while i < v.len()
        invariant
            i <= v.len(),
            forall|j: int| 0 <= j < i ==> v@[j]@ != name@,
        decreases v.len() - i,
    {
        if v[i] == *name {
            assert(names_view(v@)[i as int] == name@);
            return true;
        }
        i += 1;
    }
    assert forall|j: int| 0 <= j < names_view(v@).len() implies names_view(v@)[j] != name@ by {}
    false
}

fn path_holds_pin(programs: &Vec<ProgramEntry>, path: &String, name: &String) -> (r: bool)
    ensures
        r == pinned_for_path(programs@, path@, name@),
{
    let mut i: usize = 0;
    while i < programs.len()
        invariant
            i <= programs.len(),
            forall|j: int| 0 <= j < i ==> !((#[trigger] programs@[j]).path@ == path@ && names_view(programs@[j].pinned_maps@).contains(name@)),
        decreases programs.len() - i,
    {
        if programs[i].path == *path && contains_name(&programs[i].pinned_maps, name) {
            return true;
        }
        i += 1;
    }
    false
}

fn pinnable_maps(names: &Vec<String>) -> (r: Vec<String>)
    ensures
        names_view(r@) == pinnable(names_view(names@)),
{
    let mut r: Vec<String> = Vec::new();
    let mut i: usize = 0;
    while i < names.len()
        invariant
            i <= names.len(),
            names_view(r@) == pinnable(names_view(names@).subrange(0, i as int)),
        decreases names.len() - i,
    {
        proof {
            lemma_filter_prefix_step(names_view(names@), i as int, |n: Seq<char>| map_is_pinnable(n));
        }
        let n = names[i].clone();
        if should_map_be_pinned(n.as_str()) {
            let ghost before = r@;
            r.push(n);
            assert(names_view(r@) =~= names_view(before).push(names@[i as int]@));
        }
        i += 1;
    }
    assert(names_view(names@).subrange(0, names.len() as int) == names_view(names@));
    r
}

fn unshared_maps(programs: &Vec<ProgramEntry>, path: &String, names: &Vec<String>) -> (r: Vec<String>)
    ensures
        names_view(r@) == unshared(programs@, path@, names_view(names@)),
{
    let mut r: Vec<String> = Vec::new();
    let mut i: usize = 0;
    while i < names.len()
        invariant
            i <= names.len(),
            names_view(r@) == unshared(programs@, path@, names_view(names@).subrange(0, i as int)),
        decreases names.len() - i,
    {
        proof {
            lemma_filter_prefix_step(names_view(names@), i as int, not_pinned_for(programs@, path@));
        }
        if !path_holds_pin(programs, path, &names[i]) {
            let n = names[i].clone();
            let ghost before = r@;
            r.push(n);
            assert(names_view(r@) =~= names_view(before).push(names@[i as int]@));
        }
        i += 1;
    }
    assert(names_view(names@).subrange(0, names.len() as int) == names_view(names@));
    r
}

fn find_dispatcher(ds: &Vec<DispatcherState>, iface: &String) -> (r: Option<usize>)
    ensures
        r matches Some(j) ==> j < ds@.len() && ds@[j as int].iface@ == iface@,
        r is None ==> !has_dispatcher(ds@, iface@),
{
    let mut i: usize = 0;
    while i < ds.len()
        invariant
            i <= ds.len(),
            forall|j: int| 0 <= j < i ==> (#[trigger] ds@[j]).iface@ != iface@,
        decreases ds.len() - i,
    {
        if ds[i].iface == *iface {
            return Some(i);
        }
        i += 1;
    }
    None
}

/// First position whose priority exceeds `priority`: a new program goes there,
/// after every program of lower or equal priority.
fn insert_position(programs: &Vec<ProgramEntry>, priority: i32) -> (k: usize)
    requires
        strictly_ordered(programs@),
    ensures
        k <= programs.len(),
        forall|i: int| 0 <= i < k ==> (#[trigger] programs@[i]).priority <= priority,
        forall|i: int| k <= i < programs.len() ==> (#[trigger] programs@[i]).priority > priority,
{
    let mut k: usize = 0;
    while k < programs.len() && programs[k].priority <= priority
        invariant
            k <= programs.len(),
            forall|i: int| 0 <= i < k ==> (#[trigger] programs@[i]).priority <= priority,
        decreases programs.len() - k,
    {
        k += 1;
    }
    assert forall|i: int| k <= i < programs.len() implies (#[trigger] programs@[i]).priority > priority by {
        if i > k {
            assert(runs_before(programs@[k as int], programs@[i]));
        }
    }
    k
}

proof fn lemma_filter_insert<A>(s: Seq<A>, k: int, e: A, pred: spec_fn(A) -> bool)
    requires
        0 <= k <= s.len(),
    ensures
        s.insert(k, e).filter(pred) == s.subrange(0, k).filter(pred) + seq![e].filter(pred) + s.subrange(k, s.len() as int).filter(pred),
        s.filter(pred) == s.subrange(0, k).filter(pred) + s.subrange(k, s.len() as int).filter(pred),
{
    let a = s.subrange(0, k);
    let b = s.subrange(k, s.len() as int);
    assert(s.insert(k, e) =~= a + seq![e] + b);
    assert(s =~= a + b);
    Seq::filter_distributes_over_add(a + seq![e], b, pred);
    Seq::filter_distributes_over_add(a, seq![e], pred);
    Seq::filter_distributes_over_add(a, b, pred);
}

proof fn lemma_filter_remove<A>(s: Seq<A>, k: int, pred: spec_fn(A) -> bool)
    requires
        0 <= k < s.len(),
    ensures
        s.filter(pred) == s.subrange(0, k).filter(pred) + seq![s[k]].filter(pred) + s.subrange(k + 1, s.len() as int).filter(pred),
        s.remove(k).filter(pred) == s.subrange(0, k).filter(pred) + s.subrange(k + 1, s.len() as int).filter(pred),
{
    let a = s.subrange(0, k);
    let b = s.subrange(k + 1, s.len() as int);
    assert(s =~= a + seq![s[k]] + b);
    assert(s.remove(k) =~= a + b);
    Seq::filter_distributes_over_add(a + seq![s[k]], b, pred);
    Seq::filter_distributes_over_add(a, seq![s[k]], pred);
    Seq::filter_distributes_over_add(a, b, pred);
}

proof fn lemma_filter_single<A>(e: A, pred: spec_fn(A) -> bool)
    ensures
        seq![e].filter(pred) == (if pred(e) { seq![e] } else { Seq::<A>::empty() }),
{
    reveal(Seq::filter);
    let s = seq![e];
    assert(s.drop_last() =~= Seq::<A>::empty());
    assert(Seq::<A>::empty().filter(pred) == Seq::<A>::empty());
    assert(s.last() == e);
    if pred(e) {
        assert(Seq::<A>::empty().push(e) =~= s);
    }
}

/// Position `k` of the registry holds program `id` on `iface`.
pub open spec fn holds_program(entries: Seq<ProgramEntry>, k: int, id: u64, iface: Seq<char>) -> bool {
    0 <= k < entries.len() && entries[k].id == id && entries[k].iface@ == iface
}

/// What `remove_program` does.
pub open spec fn remove_post(
    old: BpfManager,
    new: BpfManager,
    id: u64,
    iface: Seq<char>,
    r: Result<RemoveOutcome, BpfmanError>,
) -> bool {
    if !exists|k: int| holds_program(old.entries(), k, id, iface) {
        r matches Err(BpfmanError::NotFound) && new == old
    } else {
        &&& r is Ok
        &&& exists|k: int| #[trigger] holds_program(old.entries(), k, id, iface) && {
            let gone = old.entries()[k];
            &&& new.entries() == old.entries().remove(k)
            &&& r->Ok_0.path@ == gone.path@
            &&& names_view(r->Ok_0.maps_to_unpin@) == unshared(new.entries(), gone.path@, names_view(gone.pinned_maps@))
            &&& if chain_of(new.entries(), iface).len() == 0 {
                &&& r->Ok_0.action matches DispatchAction::Detach { iface: f, ifindex: x } && f@ == iface && x == gone.ifindex
                &&& !has_dispatcher(new.dispatcher_states(), iface)
            } else {
                r->Ok_0.action matches DispatchAction::Replace { iface: f, ifindex: x, chain: c }
                    && f@ == iface && x == gone.ifindex && c@ == ids_of(chain_of(new.entries(), iface))
            }
        }
        &&& forall|other: Seq<char>| other != iface ==> #[trigger] chain_of(new.entries(), other) == chain_of(old.entries(), other)
    }
}

/// A listed summary shows the given program.
pub open spec fn describes(info: ProgramInfo, e: ProgramEntry) -> bool {
    &&& info.id == e.id
    &&& info.iface@ == e.iface@
    &&& info.priority == e.priority
    &&& info.section_name@ == e.section_name@
    &&& info.path@ == e.path@
}

pub open spec fn ids_below(ps: Seq<ProgramEntry>, bound: u64) -> bool {
    forall|i: int| 0 <= i < ps.len() ==> (#[trigger] ps[i]).id < bound
}

pub open spec fn unique_ids(ps: Seq<ProgramEntry>) -> bool {
    forall|i: int, j: int| 0 <= i < ps.len() && 0 <= j < ps.len() && i != j ==> (#[trigger] ps[i]).id != (#[trigger] ps[j]).id
}

proof fn lemma_insert_entry(old_ps: Seq<ProgramEntry>, k: int, e: ProgramEntry, iface: Seq<char>, bound: u64)
    requires
        strictly_ordered(old_ps),
        ids_below(old_ps, e.id),
        unique_ids(old_ps),
        e.id < bound,
        e.iface@ == iface,
        0 <= k <= old_ps.len(),
        forall|i: int| 0 <= i < k ==> (#[trigger] old_ps[i]).priority <= e.priority,
        forall|i: int| k <= i < old_ps.len() ==> (#[trigger] old_ps[i]).priority > e.priority,
    ensures
        strictly_ordered(old_ps.insert(k, e)),
        ids_below(old_ps.insert(k, e), bound),
        unique_ids(old_ps.insert(k, e)),
        chain_of(old_ps.insert(k, e), iface).len() > 0,
        forall|other: Seq<char>| other != iface ==> #[trigger] chain_of(old_ps.insert(k, e), other) == chain_of(old_ps, other),
{
    let ps = old_ps.insert(k, e);
    assert(ps[k] == e);
    assert forall|i: int, j: int| 0 <= i < j < ps.len() implies runs_before(#[trigger] ps[i], #[trigger] ps[j]) by {
        if j < k {
            assert(ps[i] == old_ps[i] && ps[j] == old_ps[j]);
        } else if j == k {
            assert(ps[i] == old_ps[i]);
        } else if i > k {
            assert(ps[i] == old_ps[i - 1] && ps[j] == old_ps[j - 1]);
        } else if i == k {
            assert(ps[j] == old_ps[j - 1]);
        } else {
            assert(ps[i] == old_ps[i] && ps[j] == old_ps[j - 1]);
        }
    }
    assert forall|i: int| 0 <= i < ps.len() implies (#[trigger] ps[i]).id < bound by {
        if i < k { assert(ps[i] == old_ps[i]); } else if i > k { assert(ps[i] == old_ps[i - 1]); }
    }
    assert forall|i: int, j: int| 0 <= i < ps.len() && 0 <= j < ps.len() && i != j
        implies (#[trigger] ps[i]).id != (#[trigger] ps[j]).id by {
        if i != k && j != k {
            let oi = if i < k { i } else { i - 1 };
            let oj = if j < k { j } else { j - 1 };
            assert(ps[i] == old_ps[oi] && ps[j] == old_ps[oj]);
        } else if i == k {
            let oj = if j < k { j } else { j - 1 };
            assert(ps[j] == old_ps[oj]);
        } else {
            let oi = if i < k { i } else { i - 1 };
            assert(ps[i] == old_ps[oi]);
        }
    }
    lemma_filter_insert(old_ps, k, e, on_iface(iface));
    lemma_filter_single(e, on_iface(iface));
    assert forall|other: Seq<char>| other != iface implies #[trigger] chain_of(ps, other) == chain_of(old_ps, other) by {
        lemma_filter_insert(old_ps, k, e, on_iface(other));
        lemma_filter_single(e, on_iface(other));
        assert(seq![e].filter(on_iface(other)) =~= Seq::<ProgramEntry>::empty());
    }
}

proof fn lemma_remove_entry(old_ps: Seq<ProgramEntry>, k: int, iface: Seq<char>, bound: u64)
    requires
        strictly_ordered(old_ps),
        ids_below(old_ps, bound),
        unique_ids(old_ps),
        0 <= k < old_ps.len(),
        old_ps[k].iface@ == iface,
    ensures
        strictly_ordered(old_ps.remove(k)),
        ids_below(old_ps.remove(k), bound),
        unique_ids(old_ps.remove(k)),
        forall|other: Seq<char>| other != iface ==> #[trigger] chain_of(old_ps.remove(k), other) == chain_of(old_ps, other),
{
    let ps = old_ps.remove(k);
    assert forall|i: int, j: int| 0 <= i < j < ps.len() implies runs_before(#[trigger] ps[i], #[trigger] ps[j]) by {
        let oi = if i < k { i } else { i + 1 };
        let oj = if j < k { j } else { j + 1 };
        assert(ps[i] == old_ps[oi] && ps[j] == old_ps[oj]);
    }
    assert forall|i: int| 0 <= i < ps.len() implies (#[trigger] ps[i]).id < bound by {
        let oi = if i < k { i } else { i + 1 };
        assert(ps[i] == old_ps[oi]);
    }
    assert forall|i: int, j: int| 0 <= i < ps.len() && 0 <= j < ps.len() && i != j
        implies (#[trigger] ps[i]).id != (#[trigger] ps[j]).id by {
        let oi = if i < k { i } else { i + 1 };
        let oj = if j < k { j } else { j + 1 };
        assert(ps[i] == old_ps[oi] && ps[j] == old_ps[oj]);
    }
    assert forall|other: Seq<char>| other != iface implies #[trigger] chain_of(ps, other) == chain_of(old_ps, other) by {
        lemma_filter_remove(old_ps, k, on_iface(other));
        lemma_filter_single(old_ps[k], on_iface(other));
        assert(seq![old_ps[k]].filter(on_iface(other)) =~= Seq::<ProgramEntry>::empty());
    }
}

/// A chain with no members means no program of the registry is on that interface.
proof fn lemma_empty_chain(ps: Seq<ProgramEntry>, iface: Seq<char>, i: int)
    requires
        chain_of(ps, iface).len() == 0,
        0 <= i < ps.len(),
    ensures
        ps[i].iface@ != iface,
{
    if ps[i].iface@ == iface {
        ps.lemma_filter_contains(on_iface(iface), i);
    }
}

fn find_program(programs: &Vec<ProgramEntry>, id: u64, iface: &String) -> (r: Option<usize>)
    ensures
        r matches Some(k) ==> holds_program(programs@, k as int, id, iface@),
        r is None ==> !exists|k: int| holds_program(programs@, k, id, iface@),
{
    let mut i: usize = 0;
    while i < programs.len()
        invariant
            i <= programs.len(),
            forall|k: int| 0 <= k < i ==> !holds_program(programs@, k, id, iface@),
        decreases programs.len() - i,
    {
        if programs[i].id == id && programs[i].iface == *iface {
            return Some(i);
        }
        i += 1;
    }
    None
}

impl BpfManager {
    proof fn lemma_no_dispatcher_no_chain(&self, iface: Seq<char>)
        requires
            self.wf(),
            !has_dispatcher(self.dispatchers@, iface),
        ensures
            chain_of(self.programs@, iface).len() == 0,
    {
        let c = chain_of(self.programs@, iface);
        if c.len() > 0 {
            self.programs@.lemma_filter_pred(on_iface(iface), 0);
            self.programs@.lemma_filter_contains_rev(on_iface(iface), c[0]);
            let i = choose|i: int| 0 <= i < self.programs@.len() && self.programs@[i] == c[0];
            assert(has_dispatcher(self.dispatchers@, self.programs@[i].iface@));
        }
    }

    /// Registers a program on an interface whose name resolved to `ifindex`
    /// (`None`: it did not) and whose object loaded with the map names in
    /// `loaded` (`Err`: the kernel's reason for rejecting it).
    pub fn add_resolved(
        &mut self,
        iface: String,
        ifindex: Option<u32>,
        path: String,
        priority: i32,
        section_name: String,
        loaded: Result<Vec<String>, String>,
    ) -> (r: Result<AddOutcome, BpfmanError>)
        requires
            old(self).wf(),
        ensures
            final(self).wf(),
            add_post(*old(self), *final(self), iface@, ifindex, path@, priority, section_name@, loaded, r),
    {
        let ix = match ifindex {
            None => return Err(BpfmanError::InvalidInterface),
            Some(ix) => ix,
        };
        let maps = match loaded {
            Err(reason) => return Err(BpfmanError::LoadFailure(reason)),
            Ok(m) => m,
        };
        let found = find_dispatcher(&self.dispatchers, &iface);
        let len = match found {
            Some(j) => self.dispatchers[j].chain.len(),
            None => 0,
        };
        proof {
            if found is None {
                self.lemma_no_dispatcher_no_chain(iface@);
            }
        }
        if len >= MAX_DISPATCHER_PROGRAMS || self.next_id == u64::MAX {
            return Err(BpfmanError::CapacityExceeded);
        }
        let ghost old_ps = self.programs@;
        let ghost old_ds = self.dispatchers@;
        let pinned = pinnable_maps(&maps);
        let to_pin = unshared_maps(&self.programs, &path, &pinned);
        let id = self.next_id;
        let k = insert_position(&self.programs, priority);
        let entry = ProgramEntry {
            id,
            iface: iface.clone(),
            ifindex: ix,
            priority,
            section_name,
            path,
            pinned_maps: pinned,
        };
        let ghost e = entry;
        self.programs.insert(k, entry);
        self.next_id = id + 1;
        let ghost ps = self.programs@;
        proof {
            lemma_insert_entry(old_ps, k as int, e, iface@, self.next_id);
        }
        let chain = chain_ids(&self.programs, &iface);
        let action = match found {
            Some(j) => {
                let state = DispatcherState { iface: iface.clone(), ifindex: ix, chain };
                self.dispatchers.set(j, state);
                let chain2 = chain_ids(&self.programs, &iface);
                DispatchAction::Replace { iface, ifindex: ix, chain: chain2 }
            },
            None => {
                let state = DispatcherState { iface: iface.clone(), ifindex: ix, chain };
                self.dispatchers.push(state);
                let chain2 = chain_ids(&self.programs, &iface);
                DispatchAction::Attach { iface, ifindex: ix, chain: chain2 }
            },
        };
        let ghost ds = self.dispatchers@;
        proof {
            assert(is_new_entry(ps[k as int], id, iface@, ix, path@, priority, section_name@, names_view(maps@)));
            assert(ps == old_ps.insert(k as int, ps[k as int]));
            // every program has a dispatcher
            assert forall|i: int| 0 <= i < ps.len() implies has_dispatcher(ds, (#[trigger] ps[i]).iface@) by {
                if ps[i].iface@ == iface@ {
                    let w: int = match found { Some(j) => j as int, None => old_ds.len() as int };
                    assert(ds[w].iface@ == iface@);
                } else {
                    let oi = if i < k { i } else { i - 1 };
                    assert(ps[i] == old_ps[oi]);
                    assert(has_dispatcher(old_ds, old_ps[oi].iface@));
                    let w = choose|w: int| 0 <= w < old_ds.len() && (#[trigger] old_ds[w]).iface@ == old_ps[oi].iface@;
                    assert(ds[w] == old_ds[w]);
                }
            }
            assert forall|i: int| 0 <= i < ds.len() implies {
                &&& (#[trigger] ds[i]).chain@ == ids_of(chain_of(ps, ds[i].iface@))
                &&& ds[i].chain@.len() > 0
            } by {
                if ds[i].iface@ != iface@ {
                    assert(ds[i] == old_ds[i]);
                }
            }
            assert forall|i: int, j: int| 0 <= i < j < ds.len() implies (#[trigger] ds[i]).iface@ != (#[trigger] ds[j]).iface@ by {
                if found is None && j == old_ds.len() {
                    assert(old_ds[i].iface@ != iface@);
                }
            }
        }
        proof {
            assert(found is None ==> !has_dispatcher(old_ds, iface@));
            assert(found is Some ==> has_dispatcher(old_ds, iface@));
            let kk = k as int;
            assert(0 <= kk <= old_ps.len() && ps == old_ps.insert(kk, ps[kk]) && is_new_entry(ps[kk], id, iface@, ix, path@, priority, section_name@, names_view(maps@)));
        }
        let out = AddOutcome { id, action, maps_to_pin: to_pin };
        proof {
            let kk = k as int;
            assert(self.entries()[kk] == ps[kk]);
            assert(exists|k: int| 0 <= k <= old_ps.len()
                && self.entries() == old_ps.insert(k, #[trigger] self.entries()[k])
                && is_new_entry(self.entries()[k], id, iface@, ix, path@, priority, section_name@, names_view(maps@)));
            assert(names_view(out.maps_to_pin@) == unshared(old_ps, path@, pinnable(names_view(maps@))));
            assert(forall|other: Seq<char>| other != iface@ ==> #[trigger] chain_of(self.entries(), other) == chain_of(old_ps, other));
        }
        Ok(out)
    }
}

impl BpfManager {
    /// Unregisters program `id` from `iface`. The dispatcher is rebuilt for the
    /// remaining chain, or torn down with the interface's pin directory when the
    /// chain becomes empty.
    pub fn remove_program(&mut self, id: u64, iface: &String) -> (r: Result<RemoveOutcome, BpfmanError>)
        requires
            old(self).wf(),
        ensures
            final(self).wf(),
            remove_post(*old(self), *final(self), id, iface@, r),
    {
        let k = match find_program(&self.programs, id, iface) {
            None => return Err(BpfmanError::NotFound),
            Some(k) => k,
        };
        let ghost old_ps = self.programs@;
        let ghost old_ds = self.dispatchers@;
        let found = find_dispatcher(&self.dispatchers, iface);
        let j = match found {
            Some(j) => j,
            None => {
                proof {
                    assert(has_dispatcher(old_ds, old_ps[k as int].iface@));
                }
                return Err(BpfmanError::NotFound);
            },
        };
        let gone = self.programs.remove(k);
        proof {
            lemma_remove_entry(old_ps, k as int, iface@, self.next_id);
        }
        let ghost ps = self.programs@;
        let to_unpin = unshared_maps(&self.programs, &gone.path, &gone.pinned_maps);
        let chain = chain_ids(&self.programs, iface);
        let action = if chain.len() == 0 {
            self.dispatchers.remove(j);
            DispatchAction::Detach { iface: iface.clone(), ifindex: gone.ifindex }
        } else {
            let state = DispatcherState { iface: iface.clone(), ifindex: gone.ifindex, chain };
            self.dispatchers.set(j, state);
            let chain2 = chain_ids(&self.programs, iface);
            DispatchAction::Replace { iface: iface.clone(), ifindex: gone.ifindex, chain: chain2 }
        };
        let ghost ds = self.dispatchers@;
        proof {
            let empty = chain_of(ps, iface@).len() == 0;
            assert forall|i: int| 0 <= i < ps.len() implies has_dispatcher(ds, (#[trigger] ps[i]).iface@) by {
                let oi = if i < k { i } else { i + 1 };
                assert(ps[i] == old_ps[oi]);
                assert(has_dispatcher(old_ds, old_ps[oi].iface@));
                let w = choose|w: int| 0 <= w < old_ds.len() && (#[trigger] old_ds[w]).iface@ == old_ps[oi].iface@;
                if empty {
                    lemma_empty_chain(ps, iface@, i);
                    if w < j {
                        assert(ds[w] == old_ds[w]);
                    } else {
                        assert(w != j);
                        assert(ds[w - 1] == old_ds[w]);
                    }
                } else if w != j {
                    assert(ds[w] == old_ds[w]);
                } else {
                    assert(ds[w].iface@ == iface@);
                }
            }
            assert forall|i: int| 0 <= i < ds.len() implies {
                &&& (#[trigger] ds[i]).chain@ == ids_of(chain_of(ps, ds[i].iface@))
                &&& ds[i].chain@.len() > 0
            } by {
                if empty {
                    let oi = if i < j { i } else { i + 1 };
                    assert(ds[i] == old_ds[oi]);
                    if oi < j { assert(old_ds[oi].iface@ != old_ds[j as int].iface@); }
                    else { assert(old_ds[j as int].iface@ != old_ds[oi].iface@); }
                } else if i != j {
                    assert(ds[i] == old_ds[i]);
                    if i < j { assert(old_ds[i].iface@ != old_ds[j as int].iface@); }
                    else { assert(old_ds[j as int].iface@ != old_ds[i].iface@); }
                }
            }
            assert forall|a: int, b: int| 0 <= a < b < ds.len() implies (#[trigger] ds[a]).iface@ != (#[trigger] ds[b]).iface@ by {
                if empty {
                    let oa = if a < j { a } else { a + 1 };
                    let ob = if b < j { b } else { b + 1 };
                    assert(ds[a] == old_ds[oa] && ds[b] == old_ds[ob]);
                } else {
                    if a != j && b != j {
                        assert(ds[a] == old_ds[a] && ds[b] == old_ds[b]);
                    } else if a == j {
                        assert(ds[b] == old_ds[b]);
                    } else {
                        assert(ds[a] == old_ds[a]);
                    }
                }
            }
            if empty {
                assert forall|w: int| 0 <= w < ds.len() implies (#[trigger] ds[w]).iface@ != iface@ by {
                    let ow = if w < j { w } else { w + 1 };
                    assert(ds[w] == old_ds[ow]);
                    if ow < j { assert(old_ds[ow].iface@ != old_ds[j as int].iface@); }
                    else { assert(old_ds[j as int].iface@ != old_ds[ow].iface@); }
                }
            }
            assert(holds_program(old_ps, k as int, id, iface@));
            assert(gone == old_ps[k as int]);
        }
        let ghost gone_path = gone.path@;
        let out = RemoveOutcome { action, path: gone.path, maps_to_unpin: to_unpin };
        proof {
            let kk = k as int;
            assert(self.entries() == old_ps.remove(kk));
            assert(old(self).entries() == old_ps);
            assert(holds_program(old(self).entries(), kk, id, iface@));
            assert(names_view(out.maps_to_unpin@) == unshared(ps, gone_path, names_view(gone.pinned_maps@)));
            if chain_of(ps, iface@).len() == 0 {
                assert(out.action matches DispatchAction::Detach { iface: f, ifindex: x } && f@ == iface@ && x == gone.ifindex);
                assert(!has_dispatcher(ds, iface@));
            } else {
                assert(out.action matches DispatchAction::Replace { iface: f, ifindex: x, chain: c }
                    && f@ == iface@ && x == gone.ifindex && c@ == ids_of(chain_of(ps, iface@)));
            }
        }
        Ok(out)
    }
}

impl BpfManager {
    /// Resolves the interface name, then registers the program as `add_resolved` does.
    pub fn add_program(
        &mut self,
        iface: String,
        path: String,
        priority: i32,
        section_name: String,
        loaded: Result<Vec<String>, String>,
    ) -> (r: Result<AddOutcome, BpfmanError>)
        requires
            old(self).wf(),
        ensures
            final(self).wf(),
            exists|ifindex: Option<u32>| #[trigger] add_post(*old(self), *final(self), iface@, ifindex, path@, priority, section_name@, loaded, r),
    {
        let ifindex = lookup_ifindex(iface.as_str());
        self.add_resolved(iface, ifindex, path, priority, section_name, loaded)
    }

    /// The ids of `iface`'s programs in dispatch order: by priority, then by
    /// insertion.
    pub fn compute_chain(&self, iface: &String) -> (r: Vec<u64>)
        requires
            self.wf(),
        ensures
            r@ == ids_of(chain_of(self.entries(), iface@)),
    {
        chain_ids(&self.programs, iface)
    }

    /// Summaries of the programs of `iface` in dispatch order, or of every
    /// program when no interface is given.
    pub fn list_programs(&self, iface: Option<&String>) -> (r: Vec<ProgramInfo>)
        requires
            self.wf(),
        ensures
            ({
                let sel = match iface {
                    Some(f) => chain_of(self.entries(), f@),
                    None => self.entries(),
                };
                &&& r@.len() == sel.len()
                &&& forall|i: int| 0 <= i < sel.len() ==> describes(#[trigger] r@[i], sel[i])
            }),
    {
        let mut r: Vec<ProgramInfo> = Vec::new();
        let mut i: usize = 0;
        let ghost pred = match iface {
            Some(f) => on_iface(f@),
            None => |e: ProgramEntry| true,
        };
        while i < self.programs.len()
            invariant
                i <= self.programs.len(),
                pred == (match iface { Some(f) => on_iface(f@), None => |e: ProgramEntry| true }),
                r@.len() == self.programs@.subrange(0, i as int).filter(pred).len(),
                forall|j: int| 0 <= j < r@.len() ==> describes(#[trigger] r@[j], self.programs@.subrange(0, i as int).filter(pred)[j]),
            decreases self.programs.len() - i,
        {
            proof {
                lemma_filter_prefix_step(self.programs@, i as int, pred);
            }
            let e = &self.programs[i];
            let keep = match iface {
                Some(f) => e.iface == *f,
                None => true,
            };
            if keep {
                let info = ProgramInfo {
                    id: e.id,
                    iface: e.iface.clone(),
                    priority: e.priority,
                    section_name: e.section_name.clone(),
                    path: e.path.clone(),
                };
                r.push(info);
            }
            i += 1;
        }
        proof {
            assert(self.programs@.subrange(0, self.programs.len() as int) == self.programs@);
            if iface is None {
                lemma_filter_all(self.programs@, pred);
            }
        }
        r
    }

    /// Resolves `map_name` of program `id` on `iface` to the object path under
    /// which the map is pinned.
    pub fn get_map(&self, iface: &String, id: u64, map_name: &String) -> (r: Result<String, BpfmanError>)
        requires
            self.wf(),
        ensures
            (exists|k: int| holds_program(self.entries(), k, id, iface@)
                && #[trigger] names_view(self.entries()[k].pinned_maps@).contains(map_name@))
                <==> r is Ok,
            r matches Ok(p) ==> exists|k: int| holds_program(self.entries(), k, id, iface@)
                && #[trigger] self.entries()[k].path@ == p@,
            r matches Err(e) ==> e is NotFound,
    {
        match find_program(&self.programs, id, iface) {
            None => Err(BpfmanError::NotFound),
            Some(k) => {
                if contains_name(&self.programs[k].pinned_maps, map_name) {
                    let p = self.programs[k].path.clone();
                    proof {
                        assert(self.entries()[k as int].path@ == p@);
                    }
                    Ok(p)
                } else {
                    proof {
                        assert forall|k2: int| holds_program(self.entries(), k2, id, iface@)
                            implies !#[trigger] names_view(self.entries()[k2].pinned_maps@).contains(map_name@) by {
                            if k2 != k as int {
                                assert(self.programs@[k2].id != self.programs@[k as int].id);
                            }
                        }
                    }
                    Err(BpfmanError::NotFound)
                }
            },
        }
    }
}

proof fn lemma_filter_all<A>(s: Seq<A>, pred: spec_fn(A) -> bool)
    requires
        forall|x: A| #[trigger] pred(x),
    ensures
        s.filter(pred) == s,
    decreases s.len(),
{
    reveal(Seq::filter);
    if s.len() > 0 {
        lemma_filter_all(s.drop_last(), pred);
        assert(s.drop_last().push(s.last()) =~= s);
    }
}

/// Filtering keeps the relative order of what it keeps.
pub proof fn lemma_filter_ordered(s: Seq<ProgramEntry>, pred: spec_fn(ProgramEntry) -> bool)
    requires
        strictly_ordered(s),
    ensures
        strictly_ordered(s.filter(pred)),
    decreases s.len(),
{
    reveal(Seq::filter);
    if s.len() > 0 {
        let rest = s.drop_last();
        assert(strictly_ordered(rest));
        lemma_filter_ordered(rest, pred);
        if pred(s.last()) {
            let f = rest.filter(pred);
            assert forall|i: int| 0 <= i < f.len() implies runs_before(f[i], s.last()) by {
                rest.lemma_filter_contains_rev(pred, f[i]);
            }
        }
    }
}

/// Every installed dispatcher tail-calls exactly what `compute_chain` returns for
/// its interface, and each interface's chain runs strictly in (priority,
/// insertion) order, whatever sequence of adds and removes led to the state.
pub proof fn lemma_dispatch_order_is_chain(m: &BpfManager, iface: Seq<char>)
    requires
        m.wf(),
    ensures
        strictly_ordered(chain_of(m.entries(), iface)),
        forall|j: int| 0 <= j < m.dispatcher_states().len() && (#[trigger] m.dispatcher_states()[j]).iface@ == iface
            ==> m.dispatcher_states()[j].chain@ == ids_of(chain_of(m.entries(), iface)),
{
    lemma_filter_ordered(m.entries(), on_iface(iface));
}

/// An interface has at most one dispatcher, and has one exactly when its chain
/// is not empty.
pub proof fn lemma_at_most_one_dispatcher(m: &BpfManager, iface: Seq<char>)
    requires
        m.wf(),
    ensures
        forall|i: int, j: int| 0 <= i < m.dispatcher_states().len() && 0 <= j < m.dispatcher_states().len()
            && (#[trigger] m.dispatcher_states()[i]).iface@ == iface && (#[trigger] m.dispatcher_states()[j]).iface@ == iface
            ==> i == j,
        has_dispatcher(m.dispatcher_states(), iface) <==> chain_of(m.entries(), iface).len() > 0,
{
    let ds = m.dispatcher_states();
    assert forall|i: int, j: int| 0 <= i < ds.len() && 0 <= j < ds.len()
        && (#[trigger] ds[i]).iface@ == iface && (#[trigger] ds[j]).iface@ == iface implies i == j by {
        if i < j {
            assert(ds[i].iface@ != ds[j].iface@);
        } else if j < i {
            assert(ds[j].iface@ != ds[i].iface@);
        }
    }
    if has_dispatcher(ds, iface) {
        let j = choose|j: int| 0 <= j < ds.len() && (#[trigger] ds[j]).iface@ == iface;
        assert(ds[j].chain@.len() > 0);
    } else {
        m.lemma_no_dispatcher_no_chain(iface);
    }
}

/// Removing the last program of an interface leaves it empty: no program, no
/// dispatcher, and a teardown of the dispatcher and pin directory.
pub proof fn lemma_last_removal_tears_down(
    old: &BpfManager,
    new: &BpfManager,
    id: u64,
    iface: Seq<char>,
    r: Result<RemoveOutcome, BpfmanError>,
)
    requires
        old.wf(),
        remove_post(*old, *new, id, iface, r),
        r is Ok,
        chain_of(old.entries(), iface).len() == 1,
    ensures
        chain_of(new.entries(), iface).len() == 0,
        !has_dispatcher(new.dispatcher_states(), iface),
        r->Ok_0.action is Detach,
{
    let k = choose|k: int| #[trigger] holds_program(old.entries(), k, id, iface) && {
        let gone = old.entries()[k];
        &&& new.entries() == old.entries().remove(k)
        &&& r->Ok_0.path@ == gone.path@
        &&& names_view(r->Ok_0.maps_to_unpin@) == unshared(new.entries(), gone.path@, names_view(gone.pinned_maps@))
        &&& if chain_of(new.entries(), iface).len() == 0 {
            &&& r->Ok_0.action matches DispatchAction::Detach { iface: f, ifindex: x } && f@ == iface && x == gone.ifindex
            &&& !has_dispatcher(new.dispatcher_states(), iface)
        } else {
            r->Ok_0.action matches DispatchAction::Replace { iface: f, ifindex: x, chain: c }
                && f@ == iface && x == gone.ifindex && c@ == ids_of(chain_of(new.entries(), iface))
        }
    };
    lemma_filter_remove(old.entries(), k, on_iface(iface));
    lemma_filter_single(old.entries()[k], on_iface(iface));
}

/// Two programs of one interface with equal priority are dispatched in the
/// order they were added (the earlier id first).
pub proof fn lemma_equal_priority_keeps_insertion_order(m: &BpfManager, iface: Seq<char>, i: int, j: int)
    requires
        m.wf(),
        0 <= i < chain_of(m.entries(), iface).len(),
        0 <= j < chain_of(m.entries(), iface).len(),
        chain_of(m.entries(), iface)[i].priority == chain_of(m.entries(), iface)[j].priority,
        chain_of(m.entries(), iface)[i].id < chain_of(m.entries(), iface)[j].id,
    ensures
        i < j,
{
    lemma_filter_ordered(m.entries(), on_iface(iface));
    let c = chain_of(m.entries(), iface);
    if j < i {
        assert(runs_before(c[j], c[i]));
    }
}

/// A map already pinned by a program of the same object is shared, not pinned
/// again; a pinnable map of an object that nobody has pinned yet is pinned.
pub proof fn lemma_shared_map_pinned_once(
    old: &BpfManager,
    new: &BpfManager,
    iface: Seq<char>,
    ifindex: Option<u32>,
    path: Seq<char>,
    priority: i32,
    section_name: Seq<char>,
    loaded: Result<Vec<String>, String>,
    r: Result<AddOutcome, BpfmanError>,
    name: Seq<char>,
)
    requires
        add_post(*old, *new, iface, ifindex, path, priority, section_name, loaded, r),
        r is Ok,
    ensures
        pinned_for_path(old.entries(), path, name) ==> !names_view(r->Ok_0.maps_to_pin@).contains(name),
        !pinned_for_path(old.entries(), path, name) && map_is_pinnable(name) && names_view(loaded->Ok_0@).contains(name)
            ==> names_view(r->Ok_0.maps_to_pin@).contains(name),
{
    let maps = names_view(loaded->Ok_0@);
    let pins = names_view(r->Ok_0.maps_to_pin@);
    let p = pinnable(maps);
    if pinned_for_path(old.entries(), path, name) && pins.contains(name) {
        let i = choose|i: int| 0 <= i < pins.len() && pins[i] == name;
        p.lemma_filter_pred(not_pinned_for(old.entries(), path), i);
    }
    if !pinned_for_path(old.entries(), path, name) && map_is_pinnable(name) && maps.contains(name) {
        let i = choose|i: int| 0 <= i < maps.len() && maps[i] == name;
        maps.lemma_filter_contains(|n: Seq<char>| map_is_pinnable(n), i);
        let q = choose|q: int| 0 <= q < p.len() && p[q] == name;
        p.lemma_filter_contains(not_pinned_for(old.entries(), path), q);
    }
}

} // verus!
