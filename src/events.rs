//! The watcher's event classification: from the debouncer's raw events to
//! logical create / update / remove events, and from those to the work to do.
use vstd::prelude::*;
use crate::config::CONFIG_DIR_NAME;
use crate::store::texts;

verus! {

/// The kind of a raw filesystem notification.
#[derive(Clone, Copy, Debug, PartialEq, Eq, Structural)]
pub enum RawEventKind {
    Any,
    Access,
    Create,
    Modify,
    Remove,
    Other,
}

/// A raw notification, as the debouncer delivers it: its kind, the paths it
/// names, and when it arrived (milliseconds on the watcher's clock).
#[derive(Debug)]
pub struct RawEvent {
    pub kind: RawEventKind,
    pub paths: Vec<String>,
    pub time: u64,
}

/// The kind of a logical event.
#[derive(Clone, Copy, Debug, PartialEq, Eq, Structural)]
pub enum OsEventKind {
    Other,
    Access,
    Any,
    Create,
    Update,
    Remove,
}

/// A logical event on a list of paths.
#[derive(Debug)]
pub struct OsEvent {
    pub kind: OsEventKind,
    pub paths: Vec<String>,
    pub time: u64,
}

/// The content of an event.
pub struct EventView<K> {
    pub kind: K,
    pub paths: Seq<Seq<char>>,
    pub time: u64,
}

impl View for RawEvent {
    type V = EventView<RawEventKind>;

    open spec fn view(&self) -> EventView<RawEventKind> {
        EventView { kind: self.kind, paths: texts(self.paths@), time: self.time }
    }
}

impl View for OsEvent {
    type V = EventView<OsEventKind>;

    open spec fn view(&self) -> EventView<OsEventKind> {
        EventView { kind: self.kind, paths: texts(self.paths@), time: self.time }
    }
}

/// The logical kind of a raw kind: a modification is an update.
pub open spec fn logical_kind(k: RawEventKind) -> OsEventKind {
    match k {
        RawEventKind::Create => OsEventKind::Create,
        RawEventKind::Remove => OsEventKind::Remove,
        RawEventKind::Modify => OsEventKind::Update,
        RawEventKind::Access => OsEventKind::Access,
        RawEventKind::Any => OsEventKind::Any,
        RawEventKind::Other => OsEventKind::Other,
    }
}

impl From<RawEventKind> for OsEventKind {
    fn from(value: RawEventKind) -> (r: OsEventKind) {
        match value {
            RawEventKind::Create => OsEventKind::Create,
            RawEventKind::Remove => OsEventKind::Remove,
            RawEventKind::Modify => OsEventKind::Update,
            RawEventKind::Access => OsEventKind::Access,
            RawEventKind::Any => OsEventKind::Any,
            RawEventKind::Other => OsEventKind::Other,
        }
    }
}

impl vstd::std_specs::convert::FromSpecImpl<RawEventKind> for OsEventKind {
    open spec fn obeys_from_spec() -> bool {
        true
    }

    open spec fn from_spec(v: RawEventKind) -> OsEventKind {
        logical_kind(v)
    }
}

/// The logical events of a batch, in order: a `Remove` immediately followed
/// by a `Create` of the same paths is one `Update` (an atomic save); every
/// other event keeps its own logical kind.
pub open spec fn logical_events(s: Seq<EventView<RawEventKind>>) -> Seq<EventView<OsEventKind>>
    decreases s.len(),
{
    if s.len() == 0 {
        Seq::empty()
    } else if s.len() > 1 && s[0].kind == RawEventKind::Remove && s[1].kind == RawEventKind::Create
        && s[1].paths == s[0].paths {
        seq![EventView { kind: OsEventKind::Update, paths: s[0].paths, time: s[0].time }]
            + logical_events(s.subrange(2, s.len() as int))
    } else {
        seq![EventView { kind: logical_kind(s[0].kind), paths: s[0].paths, time: s[0].time }]
            + logical_events(s.subrange(1, s.len() as int))
    }
}

/// The views of a list of raw events.
pub open spec fn raw_views(v: Seq<RawEvent>) -> Seq<EventView<RawEventKind>> {
    v.map_values(|e: RawEvent| e@)
}

/// The views of a list of logical events.
pub open spec fn os_views(v: Seq<OsEvent>) -> Seq<EventView<OsEventKind>> {
    v.map_values(|e: OsEvent| e@)
}

/// Tells whether two path lists are the same.
fn same_paths(a: &Vec<String>, b: &Vec<String>) -> (r: bool)
    ensures
        r == (texts(a@) == texts(b@)),
{
    if a.len() != b.len() {
        assert(texts(a@).len() != texts(b@).len());
        return false;
    }
    for i in 0..a.len()
        invariant
            a@.len() == b@.len(),
            forall|k: int| 0 <= k < i ==> (#[trigger] a@[k])@ == b@[k]@,
    {
        if a[i] != b[i] {
            assert(texts(a@)[i as int] != texts(b@)[i as int]);
            return false;
        }
    }
    assert(texts(a@) =~= texts(b@));
    true
}

fn os_event(kind: OsEventKind, e: RawEvent) -> (r: OsEvent)
    ensures
        r@ == (EventView { kind, paths: e@.paths, time: e@.time }),
{
    OsEvent { kind, paths: e.paths, time: e.time }
}

/// Turns a batch of raw events, in arrival order, into logical events:
/// a `Remove` immediately followed by a `Create` of the same paths becomes
/// one `Update`; only the next event is looked at.
pub fn build_events_iter(events: Vec<RawEvent>) -> (r: Vec<OsEvent>)
    ensures
        os_views(r@) == logical_events(raw_views(events@)),
{
    let ghost s = raw_views(events@);
    let mut out: Vec<OsEvent> = Vec::new();
    let mut pending: Option<RawEvent> = None;
    proof {
        assert(os_views(out@) =~= Seq::<EventView<OsEventKind>>::empty());
        assert(Seq::<EventView<RawEventKind>>::empty() + s.subrange(0, s.len() as int) =~= s);
        assert(logical_events(s) =~= os_views(out@) + logical_events(s));
    }
    for ev in it: events.into_iter()
        invariant
            it.seq() == events@,
            s == raw_views(events@),
            pending matches Some(p) ==> p@.kind == RawEventKind::Remove,
            logical_events(s) == os_views(out@) + logical_events(
                match pending {
                    Some(p) => seq![p@],
                    None => Seq::empty(),
                } + s.subrange(it.index() as int, s.len() as int),
            ),
    {
        let ghost k = it.index() as int;
        let ghost rest = s.subrange(k + 1, s.len() as int);
        assert(s.subrange(k, s.len() as int) =~= seq![s[k]] + rest);
        assert(ev@ == s[k]);
        let mut held: Option<RawEvent> = None;
        std::mem::swap(&mut held, &mut pending);
        let ghost o0 = os_views(out@);
        let mut paired = false;
        match held {
            Some(p) => {
                let ghost q = seq![p@] + (seq![s[k]] + rest);
                assert(q[0] == p@ && q[1] == s[k]);
                if ev.kind == RawEventKind::Create && same_paths(&ev.paths, &p.paths) {
                    proof {
                        assert(q.subrange(2, q.len() as int) =~= rest);
                        let u = EventView { kind: OsEventKind::Update, paths: p@.paths, time: p@.time };
                        assert(logical_events(q) == seq![u] + logical_events(rest));
                        assert(o0 + logical_events(q) =~= o0.push(u) + logical_events(rest));
                    }
                    out.push(os_event(OsEventKind::Update, p));
                    proof {
                        assert(Seq::<EventView<RawEventKind>>::empty() + rest =~= rest);
                    }
                    paired = true;
                } else {
                    proof {
                        assert(q.subrange(1, q.len() as int) =~= seq![s[k]] + rest);
                        let d = EventView { kind: OsEventKind::Remove, paths: p@.paths, time: p@.time };
                        assert(logical_events(q) == seq![d] + logical_events(seq![s[k]] + rest));
                        assert(o0 + logical_events(q) =~= o0.push(d) + logical_events(seq![s[k]] + rest));
                    }
                    out.push(os_event(OsEventKind::Remove, p));
                }
            },
            None => {
                assert(Seq::<EventView<RawEventKind>>::empty() + (seq![s[k]] + rest) =~= seq![s[k]] + rest);
            },
        }
        let ghost o1 = os_views(out@);
        proof {
            if !paired {
                assert(logical_events(s) == o1 + logical_events(seq![s[k]] + rest));
            }
        }
        if paired {
        } else if ev.kind == RawEventKind::Remove {
            pending = Some(ev);
        } else {
            proof {
                let q = seq![s[k]] + rest;
                assert(q.subrange(1, q.len() as int) =~= rest);
                let m = EventView { kind: logical_kind(s[k].kind), paths: s[k].paths, time: s[k].time };
                assert(logical_events(q) == seq![m] + logical_events(rest));
                assert(o1 + logical_events(q) =~= o1.push(m) + logical_events(rest));
            }
            let kind = OsEventKind::from(ev.kind);
            out.push(os_event(kind, ev));
            proof {
                assert(Seq::<EventView<RawEventKind>>::empty() + rest =~= rest);
            }
        }
    }
    let ghost o2 = os_views(out@);
    proof {
        assert(s.subrange(s.len() as int, s.len() as int) =~= Seq::<EventView<RawEventKind>>::empty());
    }
    match pending {
        Some(p) => {
            proof {
                let q = seq![p@] + s.subrange(s.len() as int, s.len() as int);
                assert(q =~= seq![p@]);
                assert(q.subrange(1, 1) =~= Seq::<EventView<RawEventKind>>::empty());
                let d = EventView { kind: OsEventKind::Remove, paths: p@.paths, time: p@.time };
                assert(logical_events(q) == seq![d] + logical_events(Seq::<EventView<RawEventKind>>::empty()));
                assert(o2 + logical_events(q) =~= o2.push(d));
            }
            out.push(os_event(OsEventKind::Remove, p));
        },
        None => {
            proof {
                let q = Seq::<EventView<RawEventKind>>::empty() + s.subrange(s.len() as int, s.len() as int);
                assert(q =~= Seq::<EventView<RawEventKind>>::empty());
                assert(o2 + logical_events(q) =~= o2);
            }
        },
    }
    out
}

/// `name` is the component of `p` that starts at `i` (components are
/// separated by `/`).
pub open spec fn component_at(p: Seq<char>, name: Seq<char>, i: int) -> bool {
    &&& 0 <= i
    &&& i + name.len() <= p.len()
    &&& p.subrange(i, i + name.len()) == name
    &&& i == 0 || p[i - 1] == '/'
    &&& i + name.len() == p.len() || p[i + name.len()] == '/'
}

/// Some component of the path `p` is `name`.
pub open spec fn has_component(p: Seq<char>, name: Seq<char>) -> bool {
    exists|i: int| component_at(p, name, i)
}

/// Tells whether `name` stands in `p` at `i`.
fn matches_at(p: &str, name: &str, i: usize) -> (r: bool)
    requires
        i + name@.len() <= p@.len(),
    ensures
        r == (p@.subrange(i as int, i + name@.len()) == name@),
{
    let n = p.unicode_len();
    let m = name.unicode_len();
    for j in 0..m
        invariant
            m == name@.len(),
            n == p@.len(),
            i + m <= p@.len(),
            forall|k: int| 0 <= k < j ==> p@[i + k] == name@[k],
    {
        if p.get_char(i + j) != name.get_char(j) {
            assert(p@.subrange(i as int, i + name@.len())[j as int] != name@[j as int]);
            return false;
        }
    }
    assert(p@.subrange(i as int, i + name@.len()) =~= name@);
    true
}

fn component_starts_at(p: &str, name: &str, i: usize, n: usize, m: usize) -> (r: bool)
    requires
        n == p@.len(),
        m == name@.len(),
        i + m <= n,
    ensures
        r == component_at(p@, name@, i as int),
{
    let starts = i == 0 || p.get_char(i - 1) == '/';
    let ends = i + m == n || p.get_char(i + m) == '/';
    starts && ends && matches_at(p, name, i)
}

/// Tells whether some component of the path `p` is `name`.
pub fn path_has_component(p: &str, name: &str) -> (r: bool)
    ensures
        r == has_component(p@, name@),
{
    let n = p.unicode_len();
    let m = name.unicode_len();
    if m > n {
        return false;
    }
    let limit = n - m;
    for i in 0..limit
        invariant
            n == p@.len(),
            m == name@.len(),
            m <= n,
            limit == n - m,
            forall|k: int| 0 <= k < i ==> !component_at(p@, name@, k),
    {
        if component_starts_at(p, name, i, n, m) {
            return true;
        }
    }
    if component_starts_at(p, name, limit, n, m) {
        return true;
    }
    proof {
        assert forall|k: int| !component_at(p@, name@, k) by {
            if component_at(p@, name@, k) {
                assert(k <= n - m);
            }
        }
    }
    false
}

/// A raw event the watcher acts on: a create, modify or remove, none of
/// whose paths goes through the internal `.config` directory.
pub open spec fn relevant(e: EventView<RawEventKind>) -> bool {
    &&& (e.kind == RawEventKind::Create || e.kind == RawEventKind::Modify || e.kind == RawEventKind::Remove)
    &&& forall|j: int| 0 <= j < e.paths.len() ==> !has_component(#[trigger] e.paths[j], CONFIG_DIR_NAME@)
}

/// Tells whether the watcher acts on the raw event `e`.
pub fn is_relevant(e: &RawEvent) -> (r: bool)
    ensures
        r == relevant(e@),
{
    if !(e.kind == RawEventKind::Create || e.kind == RawEventKind::Modify || e.kind
        == RawEventKind::Remove) {
        return false;
    }
    for j in 0..e.paths.len()
        invariant
            forall|k: int| 0 <= k < j ==> !has_component(#[trigger] e@.paths[k], CONFIG_DIR_NAME@),
    {
        if path_has_component(e.paths[j].as_str(), CONFIG_DIR_NAME) {
            assert(has_component(e@.paths[j as int], CONFIG_DIR_NAME@));
            return false;
        }
    }
    true
}

/// The relevant events of a batch, in order.
pub open spec fn relevant_events(s: Seq<EventView<RawEventKind>>) -> Seq<EventView<RawEventKind>>
    decreases s.len(),
{
    if s.len() == 0 {
        s
    } else if relevant(s.last()) {
        relevant_events(s.drop_last()).push(s.last())
    } else {
        relevant_events(s.drop_last())
    }
}

/// Classifies one debounced batch: drops what the watcher does not act on,
/// then collapses atomic saves into updates.
pub fn classify_batch(events: Vec<RawEvent>) -> (r: Vec<OsEvent>)
    ensures
        os_views(r@) == logical_events(relevant_events(raw_views(events@))),
{
    let ghost s = raw_views(events@);
    let mut kept: Vec<RawEvent> = Vec::new();
    for ev in it: events.into_iter()
        invariant
            it.seq() == events@,
            s == raw_views(events@),
            raw_views(kept@) == relevant_events(s.take(it.index() as int)),
    {
        let ghost k = it.index() as int;
        assert(s.take(k + 1).drop_last() =~= s.take(k));
        assert(s.take(k + 1).last() == ev@);
        let ghost before = raw_views(kept@);
        if is_relevant(&ev) {
            kept.push(ev);
            assert(raw_views(kept@) =~= before.push(s[k]));
        }
    }
    assert(s.take(s.len() as int) =~= s);
    build_events_iter(kept)
}

/// Some logical event removes the sync root itself.
pub open spec fn removes_root(s: Seq<EventView<OsEventKind>>, root: Seq<char>) -> bool {
    exists|i: int, j: int|
        0 <= i < s.len() && 0 <= j < s[i].paths.len() && s[i].kind == OsEventKind::Remove && (
        #[trigger] s[i].paths[j]) == root
}

/// Tells whether some event of the batch removes the sync root itself, on
/// which the watcher must stop.
pub fn removes_sync_root(events: &Vec<OsEvent>, sync_root: &String) -> (r: bool)
    ensures
        r == removes_root(os_views(events@), sync_root@),
{
    let ghost s = os_views(events@);
    for i in 0..events.len()
        invariant
            s == os_views(events@),
            forall|a: int, j: int|
                0 <= a < i && 0 <= j < s[a].paths.len() && s[a].kind == OsEventKind::Remove
                    ==> (#[trigger] s[a].paths[j]) != sync_root@,
    {
        if events[i].kind == OsEventKind::Remove {
            let np = events[i].paths.len();
            for j in 0..np
                invariant
                    s == os_views(events@),
                    i < events@.len(),
                    np == events@[i as int].paths@.len(),
                    events@[i as int].kind == OsEventKind::Remove,
                    forall|a: int, b: int|
                        0 <= a < i && 0 <= b < s[a].paths.len() && s[a].kind == OsEventKind::Remove
                            ==> (#[trigger] s[a].paths[b]) != sync_root@,
                    forall|b: int| 0 <= b < j ==> (#[trigger] s[i as int].paths[b]) != sync_root@,
            {
                if events[i].paths[j] == *sync_root {
                    assert(s[i as int].paths[j as int] == sync_root@);
                    return true;
                }
            }
        }
    }
    false
}

/// The work the watcher hands on for one path.
#[derive(Debug)]
pub enum Dispatch {
    /// Read the file, chunk it, and write its file, chunk and section rows.
    Index(String),
    /// Delete the file's row and its sections (its chunks stay).
    Forget(String),
}

/// The content of a dispatch.
pub enum Job {
    Index(Seq<char>),
    Forget(Seq<char>),
}

impl View for Dispatch {
    type V = Job;

    open spec fn view(&self) -> Job {
        match self {
            Dispatch::Index(p) => Job::Index(p@),
            Dispatch::Forget(p) => Job::Forget(p@),
        }
    }
}

/// The condition on which the watcher stops.
#[derive(Debug, PartialEq, Eq, Structural)]
pub enum WatchError {
    /// The sync root itself was removed.
    SyncRootRemoved,
}

/// The jobs for one logical event: a create or an update indexes each of
/// its paths, a remove forgets each of them, any other kind does nothing.
pub open spec fn jobs_of(e: EventView<OsEventKind>) -> Seq<Job> {
    match e.kind {
        OsEventKind::Create | OsEventKind::Update => e.paths.map_values(|p: Seq<char>| Job::Index(p)),
        OsEventKind::Remove => e.paths.map_values(|p: Seq<char>| Job::Forget(p)),
        _ => Seq::empty(),
    }
}

/// The jobs for a list of logical events, in order.
pub open spec fn jobs(s: Seq<EventView<OsEventKind>>) -> Seq<Job>
    decreases s.len(),
{
    if s.len() == 0 {
        Seq::empty()
    } else {
        jobs(s.drop_last()) + jobs_of(s.last())
    }
}

/// The views of a list of dispatches.
pub open spec fn dispatch_views(v: Seq<Dispatch>) -> Seq<Job> {
    v.map_values(|d: Dispatch| d@)
}

/// The work for a batch of logical events, path by path in event order;
/// if the batch removes the sync root itself, the watcher must stop.
pub fn plan_dispatch(events: Vec<OsEvent>, sync_root: &String) -> (r: Result<Vec<Dispatch>, WatchError>)
    ensures
        removes_root(os_views(events@), sync_root@) ==> r == Err::<Vec<Dispatch>, WatchError>(
            WatchError::SyncRootRemoved,
        ),
        !removes_root(os_views(events@), sync_root@) ==> (r matches Ok(v) && dispatch_views(v@) == jobs(
            os_views(events@),
        )),
{
    if removes_sync_root(&events, sync_root) {
        return Err(WatchError::SyncRootRemoved);
    }
    let ghost s = os_views(events@);
    let mut out: Vec<Dispatch> = Vec::new();
    for ev in it: events.into_iter()
        invariant
            it.seq() == events@,
            s == os_views(events@),
            dispatch_views(out@) == jobs(s.take(it.index() as int)),
    {
        let ghost k = it.index() as int;
        assert(s.take(k + 1).drop_last() =~= s.take(k));
        assert(s.take(k + 1).last() == ev@);
        let ghost before = dispatch_views(out@);
        let kind = ev.kind;
        let acts = kind == OsEventKind::Create || kind == OsEventKind::Update || kind
            == OsEventKind::Remove;
        if acts {
            let ghost ps = ev@.paths;
            for p in pit: ev.paths.into_iter()
                invariant
                    pit.seq() == ev.paths@,
                    ps == texts(ev.paths@),
                    kind == ev.kind,
                    kind == OsEventKind::Create || kind == OsEventKind::Update || kind == OsEventKind::Remove,
                    dispatch_views(out@) == before + jobs_of(ev@).take(pit.index() as int),
            {
                let ghost j = pit.index() as int;
                let ghost prev = dispatch_views(out@);
                if kind == OsEventKind::Remove {
                    out.push(Dispatch::Forget(p));
                } else {
                    out.push(Dispatch::Index(p));
                }
                assert(dispatch_views(out@) =~= prev.push(jobs_of(ev@)[j]));
                assert(jobs_of(ev@).take(j + 1) =~= jobs_of(ev@).take(j).push(jobs_of(ev@)[j]));
                assert(before + jobs_of(ev@).take(j + 1) =~= (before + jobs_of(ev@).take(j)).push(jobs_of(ev@)[j]));
            }
            assert(jobs_of(ev@).take(ps.len() as int) =~= jobs_of(ev@));
        } else {
            assert(jobs_of(ev@) =~= Seq::<Job>::empty());
            assert(before + jobs_of(ev@) =~= before);
        }
    }
    assert(s.take(s.len() as int) =~= s);
    Ok(out)
}

} // verus!
