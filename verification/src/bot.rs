use vstd::prelude::*;
use vstd::set_lib::{lemma_int_range, lemma_set_disjoint_lens, set_int_range};

verus! {

/// What a worker slot of the scheduler is doing.
#[derive(Debug, Clone, Copy, PartialEq, Eq, Structural)]
pub enum SlotState {
    /// A worker process is being started for this slot.
    Spawning,
    /// The worker waits in the scheduler's queue for a room.
    Ready,
    /// The worker serves one or more rooms.
    Busy,
}

/// A room the bot talks in: its id, the worker slot that serves it (if any)
/// and whether the bot answers in it.
pub struct BotRoom {
    pub id: String,
    pub worker: Option<usize>,
    pub active: bool,
}

/// The model of a room.
pub struct RoomView {
    pub id: Seq<char>,
    pub worker: Option<usize>,
    pub active: bool,
}

impl View for BotRoom {
    type V = RoomView;

    open spec fn view(&self) -> RoomView {
        RoomView { id: self.id@, worker: self.worker, active: self.active }
    }
}

/// The content of a room message.
pub enum MessageBody {
    /// A text message, with its formatted body when it has one.
    Text { body: String, formatted: Option<String> },
    /// An emote (`/me ...`).
    Emote { body: String },
    /// Any other message type.
    Other,
}

/// A message that arrived in a room.
pub struct RoomEvent {
    pub sender: String,
    pub room_id: String,
    pub content: MessageBody,
}

/// The model of a message content.
pub enum BodyView {
    Text { body: Seq<char>, formatted: Option<Seq<char>> },
    Emote { body: Seq<char> },
    Other,
}

pub open spec fn body_view(b: MessageBody) -> BodyView {
    match b {
        MessageBody::Text { body, formatted } => BodyView::Text {
            body: body@,
            formatted: match formatted {
                Some(f) => Some(f@),
                None => None,
            },
        },
        MessageBody::Emote { body } => BodyView::Emote { body: body@ },
        MessageBody::Other => BodyView::Other,
    }
}

/// What the caller has to do after a message was routed.
pub enum RouteAction {
    /// The bot sent the message itself: nothing to do.
    Ignore,
    /// The room is registered but has no worker yet: none is ready and one is
    /// being started. Wait until a worker is up, report it with
    /// `worker_ready` (it goes to the first waiting room), then route the same
    /// message again.
    AwaitWorker { room: usize },
    /// Ask `worker` the question and send its answer to the room.
    Ask { room: usize, worker: usize, question: String },
    /// Kill the worker of slot `killed` (if any) and start a new one in that
    /// slot. The room now has worker `replacement`, if any, and is active.
    Reset { room: usize, killed: Option<usize>, replacement: Option<usize> },
    /// Send the help text to the room.
    Help { room: usize, text: String },
    /// The bot now answers in the room.
    Start { room: usize },
    /// The bot no longer answers in the room.
    Stop { room: usize },
    /// The bot is stopped in the room: the message is not answered.
    Inactive { room: usize },
    /// Print the emote.
    Emote { body: String },
    /// A message type the bot does not handle.
    Unhandled,
}

/// The model of a route action.
pub enum ActionView {
    Ignore,
    AwaitWorker { room: int },
    Ask { room: int, worker: usize, question: Seq<char> },
    Reset { room: int, killed: Option<usize>, replacement: Option<usize> },
    Help { room: int, text: Seq<char> },
    Start { room: int },
    Stop { room: int },
    Inactive { room: int },
    Emote { body: Seq<char> },
    Unhandled,
}

pub open spec fn action_view(a: RouteAction) -> ActionView {
    match a {
        RouteAction::Ignore => ActionView::Ignore,
        RouteAction::AwaitWorker { room } => ActionView::AwaitWorker { room: room as int },
        RouteAction::Ask { room, worker, question } => ActionView::Ask {
            room: room as int,
            worker,
            question: question@,
        },
        RouteAction::Reset { room, killed, replacement } => ActionView::Reset {
            room: room as int,
            killed,
            replacement,
        },
        RouteAction::Help { room, text } => ActionView::Help { room: room as int, text: text@ },
        RouteAction::Start { room } => ActionView::Start { room: room as int },
        RouteAction::Stop { room } => ActionView::Stop { room: room as int },
        RouteAction::Inactive { room } => ActionView::Inactive { room: room as int },
        RouteAction::Emote { body } => ActionView::Emote { body: body@ },
        RouteAction::Unhandled => ActionView::Unhandled,
    }
}

/// The model of the router: the rooms, the state of each worker slot, and the
/// queue of ready workers (front first).
pub struct RouterView {
    pub rooms: Seq<RoomView>,
    pub slots: Seq<SlotState>,
    pub ready: Seq<usize>,
}

/// Keeps the rooms the bot serves and schedules the worker processes: a fixed
/// number of worker slots, each spawning, waiting in the ready queue, or
/// serving rooms.
pub struct Router {
    rooms: Vec<BotRoom>,
    slots: Vec<SlotState>,
    ready: Vec<usize>,
}

impl View for Router {
    type V = RouterView;

    closed spec fn view(&self) -> RouterView {
        RouterView {
            rooms: self.rooms@.map_values(|r: BotRoom| r@),
            slots: self.slots@,
            ready: self.ready@,
        }
    }
}

/// The text that a message asks: the formatted body of a text message when
/// it has one, else its plain body.
pub open spec fn message_text(b: BodyView) -> Option<Seq<char>> {
    match b {
        BodyView::Text { body, formatted } => match formatted {
            Some(f) => Some(f),
            None => Some(body),
        },
        _ => None,
    }
}

/// Shows the commands.
pub open spec fn help_command() -> Seq<char> {
    "!help"@
}

/// Makes the bot answer in the room.
pub open spec fn start_command() -> Seq<char> {
    "!start"@
}

/// Makes the bot stop answering in the room.
pub open spec fn stop_command() -> Seq<char> {
    "!stop"@
}

/// Replaces the room's worker with a fresh one.
pub open spec fn reset_command() -> Seq<char> {
    "!reset"@
}

/// Whether `text` is one of the room commands.
pub open spec fn is_command(text: Seq<char>) -> bool {
    text == help_command() || text == start_command() || text == stop_command() || text
        == reset_command()
}

/// The text that `!help` sends to the room.
pub open spec fn help_text() -> Seq<char> {
    "!help - Displays this.\n!start - Activates the bot.\n!stop - Terminates the bot.\n!reset - Restores the bot to its original state."@
}

/// The number of rooms served by slot `w`.
pub open spec fn room_load(rooms: Seq<RoomView>, w: usize) -> nat
    decreases rooms.len(),
{
    if rooms.len() == 0 {
        0
    } else {
        room_load(rooms.drop_last(), w) + if rooms.last().worker == Some(w) { 1nat } else { 0nat }
    }
}

/// The first room (in registration order) that has no worker, if any.
pub open spec fn first_waiting(rooms: Seq<RoomView>) -> Option<int>
    decreases rooms.len(),
{
    if rooms.len() == 0 {
        None
    } else {
        match first_waiting(rooms.drop_last()) {
            Some(i) => Some(i),
            None => if rooms.last().worker is None {
                Some(rooms.len() - 1)
            } else {
                None
            },
        }
    }
}

proof fn lemma_first_waiting(rooms: Seq<RoomView>)
    ensures
        first_waiting(rooms) matches Some(i) ==> 0 <= i < rooms.len() && rooms[i].worker is None
            && forall|j: int| 0 <= j < i ==> #[trigger] rooms[j].worker is Some,
        first_waiting(rooms) is None ==> forall|j: int| 0 <= j < rooms.len() ==> #[trigger] rooms[j].worker is Some,
    decreases rooms.len(),
{
    if rooms.len() > 0 {
        lemma_first_waiting(rooms.drop_last());
        let p = rooms.drop_last();
        assert forall|j: int| 0 <= j < p.len() implies #[trigger] rooms[j] == p[j] by {}
    }
}

proof fn lemma_first_waiting_at(rooms: Seq<RoomView>, i: int)
    requires
        0 <= i < rooms.len(),
        rooms[i].worker is None,
        forall|k: int| 0 <= k < i ==> #[trigger] rooms[k].worker is Some,
    ensures
        first_waiting(rooms) == Some(i),
    decreases rooms.len(),
{
    let p = rooms.drop_last();
    if i < rooms.len() - 1 {
        assert forall|k: int| 0 <= k < i implies #[trigger] p[k].worker is Some by {
            assert(p[k] == rooms[k]);
        }
        assert(p[i] == rooms[i]);
        lemma_first_waiting_at(p, i);
    } else {
        lemma_first_waiting(p);
        if let Some(j) = first_waiting(p) {
            assert(p[j] == rooms[j]);
        }
    }
}

impl RouterView {
    /// The router's invariant: room ids are distinct; the ready queue holds
    /// exactly the ready slots, each once; every room's worker is a busy slot,
    /// and every busy slot serves a room.
    pub open spec fn wf(self) -> bool {
        &&& self.slots.len() <= usize::MAX
        &&& forall|i: int, j: int|
            0 <= i < j < self.rooms.len() ==> #[trigger] self.rooms[i].id != #[trigger] self.rooms[j].id
        &&& self.ready.no_duplicates()
        &&& forall|k: int|
            0 <= k < self.ready.len() ==> #[trigger] self.ready[k] < self.slots.len()
                && self.slots[self.ready[k] as int] == SlotState::Ready
        &&& forall|w: int|
            0 <= w < self.slots.len() && #[trigger] self.slots[w] == SlotState::Ready
                ==> self.ready.contains(w as usize)
        &&& forall|i: int|
            0 <= i < self.rooms.len() && #[trigger] self.rooms[i].worker is Some ==> {
                let w = self.rooms[i].worker->0;
                w < self.slots.len() && self.slots[w as int] == SlotState::Busy
            }
        &&& forall|w: int|
            0 <= w < self.slots.len() && #[trigger] self.slots[w] == SlotState::Busy
                ==> exists|i: int|
                0 <= i < self.rooms.len() && #[trigger] self.rooms[i].worker == Some(w as usize)
    }

    /// The room with the given id, if there is one.
    pub open spec fn find_room(self, id: Seq<char>) -> Option<int> {
        if exists|i: int| 0 <= i < self.rooms.len() && #[trigger] self.rooms[i].id == id {
            Some(choose|i: int| 0 <= i < self.rooms.len() && #[trigger] self.rooms[i].id == id)
        } else {
            None
        }
    }

    /// Among the slots `0..n`, the busy one that serves the fewest rooms (the
    /// lowest such slot on a tie).
    pub open spec fn least_loaded_in(self, n: int) -> Option<usize>
        decreases n,
    {
        if n <= 0 {
            None
        } else {
            let prev = self.least_loaded_in(n - 1);
            if self.slots[n - 1] != SlotState::Busy {
                prev
            } else {
                match prev {
                    None => Some((n - 1) as usize),
                    Some(p) => if room_load(self.rooms, (n - 1) as usize) < room_load(self.rooms, p) {
                        Some((n - 1) as usize)
                    } else {
                        prev
                    },
                }
            }
        }
    }

    /// The busy slot that serves the fewest rooms, if any slot is busy.
    pub open spec fn least_loaded(self) -> Option<usize> {
        self.least_loaded_in(self.slots.len() as int)
    }

    /// Gives room `r` the front ready worker.
    pub open spec fn assign_front(self, r: int) -> RouterView {
        let w = self.ready[0];
        RouterView {
            rooms: self.rooms.update(r, RoomView { worker: Some(w), ..self.rooms[r] }),
            slots: self.slots.update(w as int, SlotState::Busy),
            ready: self.ready.drop_first(),
        }
    }

    /// No worker is ready and one is being started (or there are no slots):
    /// a room without a worker waits.
    pub open spec fn waits_for_worker(self) -> bool {
        self.ready.len() == 0 && (self.slots.len() == 0 || self.some_spawning())
    }

    /// Whether some worker slot is spawning.
    pub open spec fn some_spawning(self) -> bool {
        exists|v: int| 0 <= v < self.slots.len() && #[trigger] self.slots[v] == SlotState::Spawning
    }

    /// Gives room `r` a worker: the front ready one; when none is ready but a
    /// worker is being started, none (the room waits for it); only when every
    /// slot is busy, the busy worker that serves the fewest rooms (shared).
    pub open spec fn give_worker(self, r: int) -> RouterView {
        if self.ready.len() > 0 {
            self.assign_front(r)
        } else if self.some_spawning() {
            self
        } else {
            match self.least_loaded() {
                Some(w) => RouterView {
                    rooms: self.rooms.update(r, RoomView { worker: Some(w), ..self.rooms[r] }),
                    ..self
                },
                None => self,
            }
        }
    }

    /// The worker of slot `w` is killed: every room it served loses it and the
    /// slot is spawning anew.
    pub open spec fn kill_slot(self, w: usize) -> RouterView {
        RouterView {
            rooms: self.rooms.map_values(
                |room: RoomView|
                    if room.worker == Some(w) {
                        RoomView { worker: None, ..room }
                    } else {
                        room
                    },
            ),
            slots: self.slots.update(w as int, SlotState::Spawning),
            ready: self.ready,
        }
    }

    /// Sets whether the bot answers in room `r`.
    pub open spec fn set_active(self, r: int, active: bool) -> RouterView {
        RouterView { rooms: self.rooms.update(r, RoomView { active, ..self.rooms[r] }), ..self }
    }

    /// A worker of a spawning slot is up: it joins the back of the ready queue.
    ///
    /// When a room waits for a worker, the worker goes to the first such room
    /// (in registration order) instead.
    pub open spec fn ready_model(self, w: usize) -> (RouterView, bool) {
        if w < self.slots.len() && self.slots[w as int] == SlotState::Spawning {
            match first_waiting(self.rooms) {
                Some(i) => (
                    RouterView {
                        rooms: self.rooms.update(i, RoomView { worker: Some(w), ..self.rooms[i] }),
                        slots: self.slots.update(w as int, SlotState::Busy),
                        ready: self.ready,
                    },
                    true,
                ),
                None => (
                    RouterView {
                        rooms: self.rooms,
                        slots: self.slots.update(w as int, SlotState::Ready),
                        ready: self.ready.push(w),
                    },
                    true,
                ),
            }
        } else {
            (self, false)
        }
    }

    /// The state after `!reset` in room `r`: its worker (if any) is killed, the
    /// room gets a worker anew and is active.
    pub open spec fn reset_model(self, r: int) -> RouterView {
        let killed = match self.rooms[r].worker {
            Some(w) => self.kill_slot(w),
            None => self,
        };
        killed.give_worker(r).set_active(r, true)
    }

    /// What room `r` does with the message body `b`.
    pub open spec fn dispatch(self, r: int, b: BodyView) -> (RouterView, ActionView) {
        match message_text(b) {
            Some(text) => if text == help_command() {
                (self, ActionView::Help { room: r, text: help_text() })
            } else if text == start_command() {
                (self.set_active(r, true), ActionView::Start { room: r })
            } else if text == stop_command() {
                (self.set_active(r, false), ActionView::Stop { room: r })
            } else if text == reset_command() {
                let t = self.reset_model(r);
                (t, ActionView::Reset { room: r, killed: self.rooms[r].worker, replacement: t.rooms[r].worker })
            } else if !self.rooms[r].active {
                (self, ActionView::Inactive { room: r })
            } else {
                match self.rooms[r].worker {
                    Some(w) => (self, ActionView::Ask { room: r, worker: w, question: text }),
                    None => (self, ActionView::AwaitWorker { room: r }),
                }
            },
            None => match b {
                BodyView::Emote { body } => (self, ActionView::Emote { body }),
                _ => (self, ActionView::Unhandled),
            },
        }
    }

    /// The router with room `room_id` registered (a new room is active and has
    /// no worker yet), and that room's index.
    pub open spec fn register(self, room_id: Seq<char>) -> (RouterView, int) {
        match self.find_room(room_id) {
            Some(r) => (self, r),
            None => (
                RouterView {
                    rooms: self.rooms.push(RoomView { id: room_id, worker: None, active: true }),
                    ..self
                },
                self.rooms.len() as int,
            ),
        }
    }

    /// How the router handles a message from `sender` in room `room_id`, when
    /// the bot's own user is `own`: the bot's own messages are ignored; else
    /// the room is registered, given a worker when it has none, and handles
    /// the message.
    pub open spec fn route_model(self, own: Seq<char>, sender: Seq<char>, room_id: Seq<char>, b: BodyView) -> (RouterView, ActionView) {
        if sender == own {
            (self, ActionView::Ignore)
        } else {
            let (s1, r) = self.register(room_id);
            let s2 = if s1.rooms[r].worker is None { s1.give_worker(r) } else { s1 };
            s2.dispatch(r, b)
        }
    }
}

proof fn lemma_find_room(s: RouterView, id: Seq<char>)
    ensures
        s.find_room(id) matches Some(r) ==> 0 <= r < s.rooms.len() && s.rooms[r].id == id,
        s.find_room(id) is None ==> forall|i: int| 0 <= i < s.rooms.len() ==> #[trigger] s.rooms[i].id != id,
{
}

proof fn lemma_register_wf(s: RouterView, id: Seq<char>)
    requires
        s.wf(),
    ensures
        ({
            let (t, r) = s.register(id);
            &&& t.wf()
            &&& 0 <= r < t.rooms.len()
            &&& t.rooms[r].id == id
            &&& t.slots == s.slots
            &&& t.ready == s.ready
            &&& t.rooms.len() == s.rooms.len() || t.rooms.len() == s.rooms.len() + 1
            &&& forall|i: int| 0 <= i < s.rooms.len() ==> #[trigger] t.rooms[i] == s.rooms[i]
            &&& t.rooms.len() == s.rooms.len() + 1 ==> s.find_room(id) is None && r == s.rooms.len()
            &&& t.rooms.len() == s.rooms.len() ==> s.find_room(id) == Some(r)
        }),
{
    lemma_find_room(s, id);
    if s.find_room(id) is None {
        let t = s.register(id).0;
        let n = s.rooms.len() as int;
        assert forall|i: int, j: int|
            0 <= i < j < t.rooms.len() implies #[trigger] t.rooms[i].id != #[trigger] t.rooms[j].id by {
            if j < n {
                assert(s.rooms[i].id != s.rooms[j].id);
            } else {
                assert(s.rooms[i].id != id);
            }
        }
        assert forall|i: int| 0 <= i < t.rooms.len() && #[trigger] t.rooms[i].worker is Some implies {
            let x = t.rooms[i].worker->0;
            x < t.slots.len() && t.slots[x as int] == SlotState::Busy
        } by {
            assert(s.rooms[i].worker is Some);
        }
        assert forall|v: int| 0 <= v < t.slots.len() && #[trigger] t.slots[v] == SlotState::Busy
            implies exists|i: int| 0 <= i < t.rooms.len() && #[trigger] t.rooms[i].worker == Some(v as usize) by {
            let i = choose|i: int| 0 <= i < s.rooms.len() && #[trigger] s.rooms[i].worker == Some(v as usize);
            assert(t.rooms[i].worker == Some(v as usize));
        }
    }
}

proof fn lemma_assign_front_wf(s: RouterView, r: int)
    requires
        s.wf(),
        0 <= r < s.rooms.len(),
        s.rooms[r].worker is None,
        s.ready.len() > 0,
    ensures
        s.assign_front(r).wf(),
{
    let t = s.assign_front(r);
    let w0 = s.ready[0];
    assert(s.slots[w0 as int] == SlotState::Ready);
    assert forall|k: int| 0 <= k < t.ready.len() implies #[trigger] t.ready[k] < t.slots.len()
        && t.slots[t.ready[k] as int] == SlotState::Ready by {
        assert(t.ready[k] == s.ready[k + 1]);
        assert(s.ready[k + 1] != s.ready[0]);
    }
    assert forall|w: int| 0 <= w < t.slots.len() && #[trigger] t.slots[w] == SlotState::Ready
        implies t.ready.contains(w as usize) by {
        assert(s.slots[w] == SlotState::Ready);
        assert(s.ready.contains(w as usize));
        let k = choose|k: int| 0 <= k < s.ready.len() && s.ready[k] == w as usize;
        assert(k != 0);
        assert(t.ready[k - 1] == w as usize);
    }
    assert forall|i: int| 0 <= i < t.rooms.len() && #[trigger] t.rooms[i].worker is Some implies {
        let w = t.rooms[i].worker->0;
        w < t.slots.len() && t.slots[w as int] == SlotState::Busy
    } by {
        if i != r {
            assert(s.rooms[i].worker is Some);
            assert(s.slots[s.rooms[i].worker->0 as int] == SlotState::Busy);
        }
    }
    assert forall|w: int| 0 <= w < t.slots.len() && #[trigger] t.slots[w] == SlotState::Busy
        implies exists|i: int| 0 <= i < t.rooms.len() && #[trigger] t.rooms[i].worker == Some(w as usize) by {
        if w == w0 as int {
            assert(t.rooms[r].worker == Some(w as usize));
        } else {
            assert(s.slots[w] == SlotState::Busy);
            let i = choose|i: int| 0 <= i < s.rooms.len() && #[trigger] s.rooms[i].worker == Some(w as usize);
            assert(i != r);
            assert(t.rooms[i].worker == Some(w as usize));
        }
    }
    assert forall|i: int, j: int|
        0 <= i < j < t.rooms.len() implies #[trigger] t.rooms[i].id != #[trigger] t.rooms[j].id by {
        assert(s.rooms[i].id != s.rooms[j].id);
    }
}

/// What `least_loaded_in` picks: a busy slot below `n` that serves no more
/// rooms than any busy slot below `n`, or nothing when no slot below `n` is
/// busy.
proof fn lemma_least_loaded_in(s: RouterView, n: int)
    requires
        0 <= n <= s.slots.len(),
        s.slots.len() <= usize::MAX,
    ensures
        s.least_loaded_in(n) matches Some(w) ==> {
            &&& w < n
            &&& s.slots[w as int] == SlotState::Busy
            &&& forall|v: int|
                0 <= v < n && #[trigger] s.slots[v] == SlotState::Busy ==> room_load(s.rooms, w)
                    <= room_load(s.rooms, v as usize)
        },
        s.least_loaded_in(n) is None ==> forall|v: int| 0 <= v < n ==> #[trigger] s.slots[v] != SlotState::Busy,
    decreases n,
{
    if n > 0 {
        lemma_least_loaded_in(s, n - 1);
    }
}

proof fn lemma_give_worker_wf(s: RouterView, r: int)
    requires
        s.wf(),
        0 <= r < s.rooms.len(),
        s.rooms[r].worker is None,
    ensures
        ({
            let t = s.give_worker(r);
            &&& t.wf()
            &&& t.rooms.len() == s.rooms.len()
            &&& t.slots.len() == s.slots.len()
            &&& forall|i: int| 0 <= i < s.rooms.len() && i != r ==> #[trigger] t.rooms[i] == s.rooms[i]
            &&& t.rooms[r].id == s.rooms[r].id
            &&& t.rooms[r].active == s.rooms[r].active
            &&& t.rooms[r].worker is None ==> t == s && s.waits_for_worker()
            &&& s.ready.len() > 0 ==> t.rooms[r].worker == Some(s.ready[0])
            &&& s.ready.len() == 0 && s.some_spawning() ==> t == s
            &&& s.ready.len() == 0 && !s.some_spawning() ==> t.rooms[r].worker == s.least_loaded()
        }),
{
    lemma_least_loaded_in(s, s.slots.len() as int);
    if s.ready.len() > 0 {
        lemma_assign_front_wf(s, r);
    } else if s.some_spawning() {
    } else {
        let t = s.give_worker(r);
        match s.least_loaded() {
            Some(w) => {
                assert forall|i: int| 0 <= i < t.rooms.len() && #[trigger] t.rooms[i].worker is Some implies {
                    let x = t.rooms[i].worker->0;
                    x < t.slots.len() && t.slots[x as int] == SlotState::Busy
                } by {
                    if i != r {
                        assert(s.rooms[i].worker is Some);
                    }
                }
                assert forall|v: int| 0 <= v < t.slots.len() && #[trigger] t.slots[v] == SlotState::Busy
                    implies exists|i: int| 0 <= i < t.rooms.len() && #[trigger] t.rooms[i].worker == Some(v as usize) by {
                    let i = choose|i: int| 0 <= i < s.rooms.len() && #[trigger] s.rooms[i].worker == Some(v as usize);
                    assert(i != r);
                    assert(t.rooms[i].worker == Some(v as usize));
                }
                assert forall|i: int, j: int|
                    0 <= i < j < t.rooms.len() implies #[trigger] t.rooms[i].id != #[trigger] t.rooms[j].id by {
                    assert(s.rooms[i].id != s.rooms[j].id);
                }
            },
            None => {
                if s.slots.len() > 0 {
                    if s.slots[0] == SlotState::Ready {
                        assert(s.ready.contains(0usize));
                    }
                    assert(s.slots[0] == SlotState::Spawning);
                    assert(false);
                }
            },
        }
    }
}

proof fn lemma_kill_slot_wf(s: RouterView, w: usize)
    requires
        s.wf(),
        w < s.slots.len(),
        s.slots[w as int] == SlotState::Busy,
    ensures
        ({
            let t = s.kill_slot(w);
            &&& t.wf()
            &&& t.rooms.len() == s.rooms.len()
            &&& forall|i: int| 0 <= i < t.rooms.len() ==> #[trigger] t.rooms[i].worker != Some(w)
            &&& forall|i: int| 0 <= i < t.rooms.len() ==> #[trigger] t.rooms[i].id == s.rooms[i].id
                && t.rooms[i].active == s.rooms[i].active
                && (s.rooms[i].worker != Some(w) ==> t.rooms[i].worker == s.rooms[i].worker)
                && (s.rooms[i].worker == Some(w) ==> t.rooms[i].worker is None)
        }),
{
    let t = s.kill_slot(w);
    assert forall|k: int| 0 <= k < t.ready.len() implies #[trigger] t.ready[k] < t.slots.len()
        && t.slots[t.ready[k] as int] == SlotState::Ready by {
        assert(s.slots[s.ready[k] as int] == SlotState::Ready);
    }
    assert forall|v: int| 0 <= v < t.slots.len() && #[trigger] t.slots[v] == SlotState::Ready
        implies t.ready.contains(v as usize) by {
        assert(s.slots[v] == SlotState::Ready);
    }
    assert forall|i: int| 0 <= i < t.rooms.len() && #[trigger] t.rooms[i].worker is Some implies {
        let x = t.rooms[i].worker->0;
        x < t.slots.len() && t.slots[x as int] == SlotState::Busy
    } by {
        assert(s.rooms[i].worker is Some);
    }
    assert forall|v: int| 0 <= v < t.slots.len() && #[trigger] t.slots[v] == SlotState::Busy
        implies exists|i: int| 0 <= i < t.rooms.len() && #[trigger] t.rooms[i].worker == Some(v as usize) by {
        assert(s.slots[v] == SlotState::Busy);
        let i = choose|i: int| 0 <= i < s.rooms.len() && #[trigger] s.rooms[i].worker == Some(v as usize);
        assert(t.rooms[i].worker == Some(v as usize));
    }
    assert forall|i: int, j: int|
        0 <= i < j < t.rooms.len() implies #[trigger] t.rooms[i].id != #[trigger] t.rooms[j].id by {
        assert(s.rooms[i].id != s.rooms[j].id);
    }
}

proof fn lemma_set_active_wf(s: RouterView, r: int, active: bool)
    requires
        s.wf(),
        0 <= r < s.rooms.len(),
    ensures
        s.set_active(r, active).wf(),
{
    let t = s.set_active(r, active);
    assert forall|i: int, j: int|
        0 <= i < j < t.rooms.len() implies #[trigger] t.rooms[i].id != #[trigger] t.rooms[j].id by {
        assert(s.rooms[i].id != s.rooms[j].id);
    }
    assert forall|i: int| 0 <= i < t.rooms.len() && #[trigger] t.rooms[i].worker is Some implies {
        let x = t.rooms[i].worker->0;
        x < t.slots.len() && t.slots[x as int] == SlotState::Busy
    } by {
        assert(s.rooms[i].worker is Some);
    }
    assert forall|v: int| 0 <= v < t.slots.len() && #[trigger] t.slots[v] == SlotState::Busy
        implies exists|i: int| 0 <= i < t.rooms.len() && #[trigger] t.rooms[i].worker == Some(v as usize) by {
        let i = choose|i: int| 0 <= i < s.rooms.len() && #[trigger] s.rooms[i].worker == Some(v as usize);
        assert(t.rooms[i].worker == Some(v as usize));
    }
}

proof fn lemma_reset_wf(s: RouterView, r: int)
    requires
        s.wf(),
        0 <= r < s.rooms.len(),
    ensures
        ({
            let t = s.reset_model(r);
            let k = match s.rooms[r].worker {
                Some(w) => s.kill_slot(w),
                None => s,
            };
            &&& t.wf()
            &&& k.wf()
            &&& k.rooms[r].worker is None
            &&& t.rooms.len() == s.rooms.len()
            &&& t.slots.len() == s.slots.len()
            &&& t.rooms[r].active
            &&& t.rooms[r].id == s.rooms[r].id
            &&& forall|i: int| 0 <= i < s.rooms.len() ==> #[trigger] t.rooms[i].id == s.rooms[i].id
            &&& t.rooms[r].worker is None ==> t.waits_for_worker()
            &&& s.rooms[r].worker matches Some(w) ==> {
                &&& t.slots[w as int] == SlotState::Spawning
                &&& forall|i: int| 0 <= i < t.rooms.len() ==> #[trigger] t.rooms[i].worker != Some(w)
            }
        }),
{
    let k = match s.rooms[r].worker {
        Some(w) => s.kill_slot(w),
        None => s,
    };
    if let Some(w) = s.rooms[r].worker {
        lemma_kill_slot_wf(s, w);
    }
    lemma_give_worker_wf(k, r);
    let g = k.give_worker(r);
    lemma_set_active_wf(g, r, true);
    if let Some(w) = s.rooms[r].worker {
        assert(k.slots[w as int] == SlotState::Spawning);
        assert(k.some_spawning());
        assert(!k.ready.contains(w)) by {
            if k.ready.contains(w) {
                let j = choose|j: int| 0 <= j < k.ready.len() && k.ready[j] == w;
                assert(k.slots[k.ready[j] as int] == SlotState::Ready);
            }
        }
        if k.ready.len() > 0 {
            assert(k.ready[0] != w);
        }
        lemma_least_loaded_in(k, k.slots.len() as int);
        assert forall|i: int| 0 <= i < g.rooms.len() implies #[trigger] g.rooms[i].worker != Some(w) by {
            if i != r {
                assert(k.rooms[i].worker != Some(w));
            }
        }
    }
}

proof fn lemma_ready_wf(s: RouterView, w: usize)
    requires
        s.wf(),
    ensures
        s.ready_model(w).0.wf(),
        s.ready_model(w).0.slots.len() == s.slots.len(),
        s.ready_model(w).0.rooms.len() == s.rooms.len(),
        forall|i: int| 0 <= i < s.rooms.len() ==> #[trigger] s.ready_model(w).0.rooms[i].id == s.rooms[i].id
            && s.ready_model(w).0.rooms[i].active == s.rooms[i].active,
{
    lemma_first_waiting(s.rooms);
    if w < s.slots.len() && s.slots[w as int] == SlotState::Spawning {
        let t = s.ready_model(w).0;
        assert(!s.ready.contains(w)) by {
            if s.ready.contains(w) {
                let k = choose|k: int| 0 <= k < s.ready.len() && s.ready[k] == w;
                assert(s.slots[s.ready[k] as int] == SlotState::Ready);
            }
        }
        match first_waiting(s.rooms) {
            Some(r) => {
                assert forall|k: int| 0 <= k < t.ready.len() implies #[trigger] t.ready[k] < t.slots.len()
                    && t.slots[t.ready[k] as int] == SlotState::Ready by {
                    assert(s.slots[s.ready[k] as int] == SlotState::Ready);
                }
                assert forall|v: int| 0 <= v < t.slots.len() && #[trigger] t.slots[v] == SlotState::Ready
                    implies t.ready.contains(v as usize) by {
                    assert(s.slots[v] == SlotState::Ready);
                }
                assert forall|i: int| 0 <= i < t.rooms.len() && #[trigger] t.rooms[i].worker is Some implies {
                    let x = t.rooms[i].worker->0;
                    x < t.slots.len() && t.slots[x as int] == SlotState::Busy
                } by {
                    if i != r {
                        assert(s.slots[s.rooms[i].worker->0 as int] == SlotState::Busy);
                    }
                }
                assert forall|v: int| 0 <= v < t.slots.len() && #[trigger] t.slots[v] == SlotState::Busy
                    implies exists|i: int| 0 <= i < t.rooms.len() && #[trigger] t.rooms[i].worker == Some(v as usize) by {
                    if v == w as int {
                        assert(t.rooms[r].worker == Some(w));
                    } else {
                        assert(s.slots[v] == SlotState::Busy);
                        let i = choose|i: int| 0 <= i < s.rooms.len() && #[trigger] s.rooms[i].worker == Some(v as usize);
                        assert(i != r);
                        assert(t.rooms[i].worker == Some(v as usize));
                    }
                }
                assert forall|i: int, j: int|
                    0 <= i < j < t.rooms.len() implies #[trigger] t.rooms[i].id != #[trigger] t.rooms[j].id by {
                    assert(s.rooms[i].id != s.rooms[j].id);
                }
            },
            None => {
                assert forall|k: int| 0 <= k < t.ready.len() implies #[trigger] t.ready[k] < t.slots.len()
                    && t.slots[t.ready[k] as int] == SlotState::Ready by {
                    if k < s.ready.len() {
                        assert(s.slots[s.ready[k] as int] == SlotState::Ready);
                    }
                }
                assert forall|v: int| 0 <= v < t.slots.len() && #[trigger] t.slots[v] == SlotState::Ready
                    implies t.ready.contains(v as usize) by {
                    if v == w as int {
                        assert(t.ready[s.ready.len() as int] == w);
                    } else {
                        assert(s.ready.contains(v as usize));
                        let k = choose|k: int| 0 <= k < s.ready.len() && s.ready[k] == v as usize;
                        assert(t.ready[k] == v as usize);
                    }
                }
                assert forall|i: int| 0 <= i < t.rooms.len() && #[trigger] t.rooms[i].worker is Some implies {
                    let x = t.rooms[i].worker->0;
                    x < t.slots.len() && t.slots[x as int] == SlotState::Busy
                } by {
                    assert(s.slots[s.rooms[i].worker->0 as int] == SlotState::Busy);
                }
                assert forall|v: int| 0 <= v < t.slots.len() && #[trigger] t.slots[v] == SlotState::Busy
                    implies exists|i: int| 0 <= i < t.rooms.len() && #[trigger] t.rooms[i].worker == Some(v as usize) by {
                    assert(s.slots[v] == SlotState::Busy);
                }
            },
        }
    }
}

proof fn lemma_dispatch_wf(s: RouterView, r: int, b: BodyView)
    requires
        s.wf(),
        0 <= r < s.rooms.len(),
    ensures
        s.dispatch(r, b).0.wf(),
        s.dispatch(r, b).0.rooms.len() == s.rooms.len(),
        s.dispatch(r, b).0.slots.len() == s.slots.len(),
{
    lemma_set_active_wf(s, r, true);
    lemma_set_active_wf(s, r, false);
    lemma_reset_wf(s, r);
}

/// Routing a message keeps the router's invariant.
pub proof fn lemma_route_wf(s: RouterView, own: Seq<char>, sender: Seq<char>, room_id: Seq<char>, b: BodyView)
    requires
        s.wf(),
    ensures
        s.route_model(own, sender, room_id, b).0.wf(),
        s.route_model(own, sender, room_id, b).0.slots.len() == s.slots.len(),
{
    if sender != own {
        lemma_register_wf(s, room_id);
        let (s1, r) = s.register(room_id);
        if s1.rooms[r].worker is None {
            lemma_give_worker_wf(s1, r);
            lemma_dispatch_wf(s1.give_worker(r), r, b);
        } else {
            lemma_dispatch_wf(s1, r, b);
        }
    }
}

/// The slots in state `st`.
pub open spec fn slots_in(slots: Seq<SlotState>, st: SlotState) -> Set<int> {
    Set::new(|w: int| 0 <= w < slots.len() && slots[w] == st)
}

/// The slots of the workers that serve rooms.
pub open spec fn worker_set(rooms: Seq<RoomView>) -> Set<int> {
    Set::new(
        |w: int|
            exists|i: int| 0 <= i < rooms.len() && #[trigger] rooms[i].worker is Some && rooms[i].worker->0 as int == w,
    )
}

/// The scheduler keeps a constant number of workers: each of its slots is
/// spawning, waiting once in the ready queue, or serving rooms, so the ready
/// workers, the spawning workers and the workers that serve rooms add up to
/// the number of slots.
pub proof fn lemma_worker_count(s: RouterView)
    requires
        s.wf(),
    ensures
        s.ready.len() + slots_in(s.slots, SlotState::Spawning).len() + worker_set(s.rooms).len()
            == s.slots.len(),
{
    let n = s.slots.len() as int;
    let all = set_int_range(0, n);
    lemma_int_range(0, n);
    let sp = slots_in(s.slots, SlotState::Spawning);
    let rd = slots_in(s.slots, SlotState::Ready);
    let bs = slots_in(s.slots, SlotState::Busy);
    assert(sp.subset_of(all));
    assert(rd.subset_of(all));
    assert(bs.subset_of(all));
    vstd::set_lib::lemma_set_subset_finite(all, sp);
    vstd::set_lib::lemma_set_subset_finite(all, rd);
    vstd::set_lib::lemma_set_subset_finite(all, bs);
    assert(sp.disjoint(rd));
    lemma_set_disjoint_lens(sp, rd);
    assert((sp + rd).disjoint(bs));
    lemma_set_disjoint_lens(sp + rd, bs);
    assert(sp + rd + bs =~= all) by {
        assert forall|w: int| all.contains(w) implies (sp + rd + bs).contains(w) by {
            match s.slots[w] {
                SlotState::Spawning => assert(sp.contains(w)),
                SlotState::Ready => assert(rd.contains(w)),
                SlotState::Busy => assert(bs.contains(w)),
            }
        }
    }
    // the ready queue lists the ready slots once each
    let q = s.ready.map_values(|x: usize| x as int);
    assert(q.no_duplicates()) by {
        assert forall|i: int, j: int| 0 <= i < q.len() && 0 <= j < q.len() && i != j implies q[i] != q[j] by {
            assert(s.ready[i] != s.ready[j]);
        }
    }
    q.unique_seq_to_set();
    assert(q.to_set() =~= rd) by {
        assert forall|w: int| q.to_set().contains(w) implies rd.contains(w) by {
            let k = choose|k: int| 0 <= k < q.len() && q[k] == w;
            assert(s.slots[s.ready[k] as int] == SlotState::Ready);
        }
        assert forall|w: int| rd.contains(w) implies q.to_set().contains(w) by {
            assert(s.ready.contains(w as usize));
            let k = choose|k: int| 0 <= k < s.ready.len() && s.ready[k] == w as usize;
            assert(q[k] == w);
        }
    }
    // the rooms' workers are the busy slots
    assert(worker_set(s.rooms) =~= bs) by {
        assert forall|w: int| worker_set(s.rooms).contains(w) implies bs.contains(w) by {
            let i = choose|i: int|
                0 <= i < s.rooms.len() && #[trigger] s.rooms[i].worker is Some && s.rooms[i].worker->0 as int == w;
            assert(s.slots[s.rooms[i].worker->0 as int] == SlotState::Busy);
        }
        assert forall|w: int| bs.contains(w) implies worker_set(s.rooms).contains(w) by {
            let i = choose|i: int| 0 <= i < s.rooms.len() && #[trigger] s.rooms[i].worker == Some(w as usize);
            assert(s.rooms[i].worker is Some);
        }
    }
}

/// Every operation of the router keeps the number of worker slots, and with
/// it the count of ready, spawning and serving workers.
pub proof fn lemma_operations_keep_worker_count(
    s: RouterView,
    own: Seq<char>,
    sender: Seq<char>,
    room_id: Seq<char>,
    b: BodyView,
    w: usize,
)
    requires
        s.wf(),
    ensures
        ({
            let t = s.route_model(own, sender, room_id, b).0;
            t.slots.len() == s.slots.len() && t.ready.len() + slots_in(t.slots, SlotState::Spawning).len()
                + worker_set(t.rooms).len() == s.slots.len()
        }),
        ({
            let t = s.ready_model(w).0;
            t.slots.len() == s.slots.len() && t.ready.len() + slots_in(t.slots, SlotState::Spawning).len()
                + worker_set(t.rooms).len() == s.slots.len()
        }),
{
    lemma_route_wf(s, own, sender, room_id, b);
    lemma_worker_count(s.route_model(own, sender, room_id, b).0);
    lemma_ready_wf(s, w);
    lemma_worker_count(s.ready_model(w).0);
}

/// The bot's own messages change nothing and are ignored.
pub proof fn lemma_own_messages_ignored(s: RouterView, own: Seq<char>, room_id: Seq<char>, b: BodyView)
    ensures
        s.route_model(own, own, room_id, b) == (s, ActionView::Ignore),
{
}

proof fn lemma_dispatch_facts(s: RouterView, r: int, b: BodyView)
    requires
        s.wf(),
        0 <= r < s.rooms.len(),
        s.rooms[r].worker is None ==> s.waits_for_worker(),
    ensures
        ({
            let t = s.dispatch(r, b).0;
            &&& t.wf()
            &&& t.rooms.len() == s.rooms.len()
            &&& t.slots.len() == s.slots.len()
            &&& forall|i: int| 0 <= i < s.rooms.len() ==> #[trigger] t.rooms[i].id == s.rooms[i].id
            &&& t.rooms[r].worker is None ==> t.waits_for_worker()
        }),
{
    lemma_dispatch_wf(s, r, b);
    match message_text(b) {
        Some(text) => {
            if text == reset_command() {
                lemma_reset_wf(s, r);
            }
        },
        None => {},
    }
}

/// New rooms are managed automatically: after a message from someone else,
/// exactly one room has the message's room id, it is the old one or a new one
/// added at the end, no other room is dropped or renamed, and the room has a
/// worker unless none is ready and one is being started (the room then waits
/// for it).
pub proof fn lemma_route_registers_room(
    s: RouterView,
    own: Seq<char>,
    sender: Seq<char>,
    room_id: Seq<char>,
    b: BodyView,
)
    requires
        s.wf(),
        sender != own,
    ensures
        ({
            let t = s.route_model(own, sender, room_id, b).0;
            let r = s.register(room_id).1;
            &&& t.rooms.len() == s.rooms.len() || t.rooms.len() == s.rooms.len() + 1
            &&& forall|i: int| 0 <= i < s.rooms.len() ==> #[trigger] t.rooms[i].id == s.rooms[i].id
            &&& 0 <= r < t.rooms.len()
            &&& t.rooms[r].id == room_id
            &&& forall|i: int| 0 <= i < t.rooms.len() && #[trigger] t.rooms[i].id == room_id ==> i == r
            &&& t.rooms.len() == s.rooms.len() + 1 ==> r == s.rooms.len() && s.find_room(room_id) is None
            &&& t.rooms[r].worker is None ==> t.waits_for_worker()
        }),
{
    lemma_route_wf(s, own, sender, room_id, b);
    lemma_register_wf(s, room_id);
    let (s1, r) = s.register(room_id);
    let s2 = if s1.rooms[r].worker is None { s1.give_worker(r) } else { s1 };
    if s1.rooms[r].worker is None {
        lemma_give_worker_wf(s1, r);
    }
    lemma_dispatch_facts(s2, r, b);
    let t = s.route_model(own, sender, room_id, b).0;
    assert(t == s2.dispatch(r, b).0);
    assert forall|i: int| 0 <= i < t.rooms.len() && #[trigger] t.rooms[i].id == room_id implies i == r by {
        if i != r {
            if i < r {
                assert(t.rooms[i].id != t.rooms[r].id);
            } else {
                assert(t.rooms[r].id != t.rooms[i].id);
            }
        }
    }
}

/// Workload is spread: when a room that needs a worker shares one (every slot
/// busy), it is a busy worker that serves no more rooms than any other.
pub proof fn lemma_shared_worker_is_least_loaded(s: RouterView, r: int)
    requires
        s.wf(),
        0 <= r < s.rooms.len(),
        s.rooms[r].worker is None,
        s.ready.len() == 0,
    ensures
        s.give_worker(r).rooms[r].worker matches Some(w) ==> {
            &&& s.slots[w as int] == SlotState::Busy
            &&& forall|v: int|
                0 <= v < s.slots.len() && #[trigger] s.slots[v] == SlotState::Busy ==> room_load(s.rooms, w)
                    <= room_load(s.rooms, v as usize)
        },
{
    lemma_least_loaded_in(s, s.slots.len() as int);
    lemma_give_worker_wf(s, r);
}

proof fn lemma_give_worker_sharing(s: RouterView, r: int)
    requires
        s.wf(),
        0 <= r < s.rooms.len(),
        s.rooms[r].worker is None,
    ensures
        ({
            let t = s.give_worker(r);
            t.rooms[r].worker matches Some(w) && (exists|j: int|
                0 <= j < t.rooms.len() && j != r && #[trigger] t.rooms[j].worker == Some(w)) ==> forall|v: int|
                0 <= v < s.slots.len() ==> #[trigger] s.slots[v] == SlotState::Busy
        }),
{
    lemma_give_worker_wf(s, r);
    let t = s.give_worker(r);
    if s.ready.len() > 0 {
        let w0 = s.ready[0];
        assert(s.slots[w0 as int] == SlotState::Ready);
        assert forall|j: int| 0 <= j < t.rooms.len() && j != r implies #[trigger] t.rooms[j].worker != Some(w0) by {
            if s.rooms[j].worker == Some(w0) {
                assert(s.rooms[j].worker is Some);
            }
        }
    } else if !s.some_spawning() {
        assert forall|v: int| 0 <= v < s.slots.len() implies #[trigger] s.slots[v] == SlotState::Busy by {
            if s.slots[v] == SlotState::Ready {
                assert(s.ready.contains(v as usize));
            }
        }
    }
}

/// Rooms share a worker only when there is no other way: routing gives a room
/// a worker that another room also holds only when, before the message, every
/// slot was busy (no worker ready, none being started).
pub proof fn lemma_no_sharing_while_workers_come(
    s: RouterView,
    own: Seq<char>,
    sender: Seq<char>,
    room_id: Seq<char>,
    b: BodyView,
)
    requires
        s.wf(),
        sender != own,
    ensures
        ({
            let t = s.route_model(own, sender, room_id, b).0;
            let (s1, r) = s.register(room_id);
            t.rooms[r].worker matches Some(w) && s1.rooms[r].worker != Some(w) && (exists|j: int|
                0 <= j < t.rooms.len() && j != r && #[trigger] t.rooms[j].worker == Some(w)) ==> forall|v: int|
                0 <= v < s.slots.len() ==> #[trigger] s.slots[v] == SlotState::Busy
        }),
{
    lemma_register_wf(s, room_id);
    let (s1, r) = s.register(room_id);
    let s2 = if s1.rooms[r].worker is None { s1.give_worker(r) } else { s1 };
    if s1.rooms[r].worker is None {
        lemma_give_worker_wf(s1, r);
        lemma_give_worker_sharing(s1, r);
    }
    let t = s.route_model(own, sender, room_id, b).0;
    assert(t == s2.dispatch(r, b).0);
    lemma_commands_distinct();
    if message_text(b) == Some(reset_command()) {
        let k = match s2.rooms[r].worker {
            Some(w) => s2.kill_slot(w),
            None => s2,
        };
        lemma_reset_wf(s2, r);
        lemma_give_worker_wf(k, r);
        lemma_give_worker_sharing(k, r);
        let g = k.give_worker(r);
        assert(t == g.set_active(r, true));
        if let Some(w0) = s2.rooms[r].worker {
            assert(k.slots[w0 as int] == SlotState::Spawning);
        } else {
            assert(s2 == s1);
            assert(k == s1);
        }
        if let Some(w) = t.rooms[r].worker {
            if exists|j: int| 0 <= j < t.rooms.len() && j != r && #[trigger] t.rooms[j].worker == Some(w) {
                let j = choose|j: int| 0 <= j < t.rooms.len() && j != r && #[trigger] t.rooms[j].worker == Some(w);
                assert(g.rooms[j].worker == Some(w));
            }
        }
    } else {
        lemma_dispatch_facts(s2, r, b);
        if let Some(w) = t.rooms[r].worker {
            if s1.rooms[r].worker != Some(w) && exists|j: int|
                0 <= j < t.rooms.len() && j != r && #[trigger] t.rooms[j].worker == Some(w) {
                let j = choose|j: int| 0 <= j < t.rooms.len() && j != r && #[trigger] t.rooms[j].worker == Some(w);
                assert(s2.rooms[j].worker == Some(w));
                assert(s2.rooms[r].worker == Some(w));
            }
        }
    }
}

/// A started worker goes to the first room that waits for one, which then
/// holds it alone; only when no room waits does it join the ready queue.
pub proof fn lemma_ready_worker_goes_to_waiting_room(s: RouterView, w: usize)
    requires
        s.wf(),
        w < s.slots.len(),
        s.slots[w as int] == SlotState::Spawning,
    ensures
        ({
            let t = s.ready_model(w).0;
            &&& s.ready_model(w).1
            &&& t.slots[w as int] != SlotState::Spawning
            &&& (exists|i: int| 0 <= i < s.rooms.len() && #[trigger] s.rooms[i].worker is None) ==> exists|i: int|
                0 <= i < s.rooms.len() && #[trigger] s.rooms[i].worker is None && (forall|j: int|
                    0 <= j < i ==> #[trigger] s.rooms[j].worker is Some) && t.rooms[i].worker == Some(w)
                    && t.ready == s.ready && forall|j: int|
                    0 <= j < t.rooms.len() && j != i ==> #[trigger] t.rooms[j] == s.rooms[j]
            &&& (forall|i: int| 0 <= i < s.rooms.len() ==> #[trigger] s.rooms[i].worker is Some) ==> t.ready
                == s.ready.push(w) && t.rooms == s.rooms
            &&& forall|j: int| 0 <= j < t.rooms.len() && #[trigger] t.rooms[j].worker == Some(w) ==> s.rooms[j].worker is None
        }),
{
    lemma_first_waiting(s.rooms);
    if let Some(i) = first_waiting(s.rooms) {
        let t = s.ready_model(w).0;
        assert forall|j: int| 0 <= j < t.rooms.len() && #[trigger] t.rooms[j].worker == Some(w) implies s.rooms[j].worker is None by {
            if j != i && s.rooms[j].worker == Some(w) {
                assert(s.rooms[j].worker is Some);
            }
        }
    } else {
        let t = s.ready_model(w).0;
        assert forall|j: int| 0 <= j < t.rooms.len() && #[trigger] t.rooms[j].worker == Some(w) implies s.rooms[j].worker is None by {
            assert(s.rooms[j].worker is Some);
        }
    }
}

/// A room's answering is switched only by `!start`, `!stop` or `!reset` sent
/// in that room; a worker coming up never switches it. So after `!stop` the
/// room stays stopped until `!start` or `!reset`.
pub proof fn lemma_only_commands_switch_answering(
    s: RouterView,
    own: Seq<char>,
    sender: Seq<char>,
    room_id: Seq<char>,
    b: BodyView,
    w: usize,
)
    requires
        s.wf(),
    ensures
        ({
            let t = s.route_model(own, sender, room_id, b).0;
            forall|i: int|
                0 <= i < s.rooms.len() && #[trigger] t.rooms[i].active != s.rooms[i].active ==> {
                    &&& sender != own
                    &&& s.rooms[i].id == room_id
                    &&& message_text(b) == Some(start_command()) || message_text(b) == Some(stop_command())
                        || message_text(b) == Some(reset_command())
                }
        }),
        forall|i: int|
            0 <= i < s.rooms.len() ==> #[trigger] s.ready_model(w).0.rooms[i].active == s.rooms[i].active,
{
    lemma_ready_wf(s, w);
    assert forall|i: int| 0 <= i < s.rooms.len() implies #[trigger] s.ready_model(w).0.rooms[i].active
        == s.rooms[i].active by {
        assert(s.ready_model(w).0.rooms[i].id == s.rooms[i].id);
    }
    if sender != own {
        lemma_register_wf(s, room_id);
        let (s1, r) = s.register(room_id);
        let s2 = if s1.rooms[r].worker is None { s1.give_worker(r) } else { s1 };
        if s1.rooms[r].worker is None {
            lemma_give_worker_wf(s1, r);
        }
        let t = s.route_model(own, sender, room_id, b).0;
        assert(t == s2.dispatch(r, b).0);
        if message_text(b) == Some(reset_command()) {
            let k = match s2.rooms[r].worker {
                Some(x) => s2.kill_slot(x),
                None => s2,
            };
            if let Some(x) = s2.rooms[r].worker {
                lemma_kill_slot_wf(s2, x);
            }
            lemma_give_worker_wf(k, r);
        }
        assert forall|i: int| 0 <= i < s.rooms.len() && #[trigger] t.rooms[i].active != s.rooms[i].active
            implies s.rooms[i].id == room_id by {
            if i != r {
                assert(s2.rooms[i] == s1.rooms[i]);
            }
        }
    }
}

/// A stopped room answers no plain message: its text goes to no worker.
pub proof fn lemma_stopped_room_answers_nothing(
    s: RouterView,
    own: Seq<char>,
    sender: Seq<char>,
    room_id: Seq<char>,
    b: BodyView,
)
    requires
        s.wf(),
        sender != own,
        s.find_room(room_id) matches Some(i) && !s.rooms[i].active,
        message_text(b) matches Some(q) && !is_command(q),
    ensures
        ({
            let (t, a) = s.route_model(own, sender, room_id, b);
            let i = s.find_room(room_id)->0;
            a == ActionView::Inactive { room: i } && !t.rooms[i].active
        }),
{
    lemma_register_wf(s, room_id);
    let (s1, r) = s.register(room_id);
    if s1.rooms[r].worker is None {
        lemma_give_worker_wf(s1, r);
    }
}

/// Any text that is not one of the four commands is a question: in an active
/// room with a worker it is asked of that worker, word for word (the
/// formatted body when there is one, else the plain body); in a stopped room
/// it is not answered; in an active room still waiting for a worker the
/// caller is told to wait.
pub proof fn lemma_plain_text_is_asked(
    s: RouterView,
    own: Seq<char>,
    sender: Seq<char>,
    room_id: Seq<char>,
    body: Seq<char>,
    formatted: Option<Seq<char>>,
)
    requires
        s.wf(),
        sender != own,
    ensures
        ({
            let q = match formatted {
                Some(f) => f,
                None => body,
            };
            let (t, a) = s.route_model(own, sender, room_id, BodyView::Text { body, formatted });
            q != "!help"@ && q != "!start"@ && q != "!stop"@ && q != "!reset"@ ==> forall|r: int|
                0 <= r < t.rooms.len() && #[trigger] t.rooms[r].id == room_id ==> {
                    &&& (t.rooms[r].active && t.rooms[r].worker is Some) ==> a == ActionView::Ask {
                        room: r,
                        worker: t.rooms[r].worker->0,
                        question: q,
                    }
                    &&& !t.rooms[r].active ==> a == ActionView::Inactive { room: r }
                    &&& (t.rooms[r].active && t.rooms[r].worker is None) ==> a == ActionView::AwaitWorker { room: r }
                }
        }),
{
    let b = BodyView::Text { body, formatted };
    lemma_route_registers_room(s, own, sender, room_id, b);
    lemma_register_wf(s, room_id);
    let (s1, r) = s.register(room_id);
    let s2 = if s1.rooms[r].worker is None { s1.give_worker(r) } else { s1 };
    if s1.rooms[r].worker is None {
        lemma_give_worker_wf(s1, r);
    }
    let t = s.route_model(own, sender, room_id, b).0;
    assert(s.route_model(own, sender, room_id, b) == s2.dispatch(r, b));
}

/// The commands by their texts: `!help` answers with the command list,
/// `!start` makes the room answer, `!stop` makes it stop, `!reset` resets it
/// and leaves it answering.
pub proof fn lemma_commands_by_text(
    s: RouterView,
    own: Seq<char>,
    sender: Seq<char>,
    room_id: Seq<char>,
    body: Seq<char>,
    formatted: Option<Seq<char>>,
)
    requires
        s.wf(),
        sender != own,
    ensures
        ({
            let q = match formatted {
                Some(f) => f,
                None => body,
            };
            let (t, a) = s.route_model(own, sender, room_id, BodyView::Text { body, formatted });
            forall|r: int|
                0 <= r < t.rooms.len() && #[trigger] t.rooms[r].id == room_id ==> {
                    &&& q == "!help"@ ==> a == ActionView::Help {
                        room: r,
                        text: "!help - Displays this.\n!start - Activates the bot.\n!stop - Terminates the bot.\n!reset - Restores the bot to its original state."@,
                    }
                    &&& q == "!start"@ ==> a == ActionView::Start { room: r } && t.rooms[r].active
                    &&& q == "!stop"@ ==> a == ActionView::Stop { room: r } && !t.rooms[r].active
                    &&& q == "!reset"@ ==> (a matches ActionView::Reset { room, .. } && room == r)
                        && t.rooms[r].active
                }
        }),
{
    let b = BodyView::Text { body, formatted };
    lemma_route_registers_room(s, own, sender, room_id, b);
    lemma_register_wf(s, room_id);
    lemma_commands_distinct();
    let (s1, r) = s.register(room_id);
    let s2 = if s1.rooms[r].worker is None { s1.give_worker(r) } else { s1 };
    if s1.rooms[r].worker is None {
        lemma_give_worker_wf(s1, r);
    }
    lemma_reset_wf(s2, r);
    assert(s.route_model(own, sender, room_id, b) == s2.dispatch(r, b));
}

/// A message in a room the router does not know yet, when a worker is ready,
/// adds the room at the end, active, with the front ready worker, which leaves
/// the ready queue and is held by no other room.
pub proof fn lemma_new_room_takes_front_worker(
    s: RouterView,
    own: Seq<char>,
    sender: Seq<char>,
    room_id: Seq<char>,
    b: BodyView,
)
    requires
        s.wf(),
        sender != own,
        forall|i: int| 0 <= i < s.rooms.len() ==> #[trigger] s.rooms[i].id != room_id,
        s.ready.len() > 0,
        message_text(b) != Some(reset_command()),
    ensures
        ({
            let t = s.route_model(own, sender, room_id, b).0;
            let n = s.rooms.len() as int;
            &&& t.rooms.len() == n + 1
            &&& t.rooms[n].id == room_id
            &&& t.rooms[n].worker == Some(s.ready[0])
            &&& t.ready == s.ready.drop_first()
            &&& forall|i: int| 0 <= i < n ==> #[trigger] t.rooms[i].worker != Some(s.ready[0])
        }),
{
    lemma_find_room(s, room_id);
    lemma_register_wf(s, room_id);
    let (s1, r) = s.register(room_id);
    lemma_give_worker_wf(s1, r);
    let s2 = s1.give_worker(r);
    assert(s.route_model(own, sender, room_id, b) == s2.dispatch(r, b));
    let w0 = s.ready[0];
    assert(s.slots[w0 as int] == SlotState::Ready);
    assert forall|i: int| 0 <= i < r implies #[trigger] s2.rooms[i].worker != Some(w0) by {
        assert(s1.rooms[i] == s.rooms[i]);
        if s.rooms[i].worker == Some(w0) {
            assert(s.rooms[i].worker is Some);
        }
    }
    lemma_commands_distinct();
    lemma_dispatch_wf(s2, r, b);
}

/// The four room commands are different texts.
proof fn lemma_commands_distinct()
    ensures
        help_command() != start_command(),
        help_command() != stop_command(),
        help_command() != reset_command(),
        start_command() != stop_command(),
        start_command() != reset_command(),
        stop_command() != reset_command(),
{
    reveal_strlit("!help");
    reveal_strlit("!start");
    reveal_strlit("!stop");
    reveal_strlit("!reset");
    assert(help_command()[1] != start_command()[1]);
    assert(help_command()[1] != stop_command()[1]);
    assert(help_command()[1] != reset_command()[1]);
    assert(start_command().len() != stop_command().len());
    assert(start_command()[1] != reset_command()[1]);
    assert(stop_command()[1] != reset_command()[1]);
}

/// The room commands: `!help` changes nothing and sends the help text,
/// `!start` and `!stop` switch the room's answering on and off, and none of
/// the commands is passed to a worker as a question.
pub proof fn lemma_commands(s: RouterView, r: int, b: BodyView)
    requires
        s.wf(),
        0 <= r < s.rooms.len(),
    ensures
        ({
            let (t, a) = s.dispatch(r, b);
            &&& message_text(b) == Some(help_command()) ==> t == s && a == ActionView::Help { room: r, text: help_text() }
            &&& message_text(b) == Some(start_command()) ==> t == s.set_active(r, true) && t.rooms[r].active
                && a == ActionView::Start { room: r }
            &&& message_text(b) == Some(stop_command()) ==> t == s.set_active(r, false) && !t.rooms[r].active
                && a == ActionView::Stop { room: r }
            &&& a is Ask ==> (message_text(b) matches Some(q) && !is_command(q))
        }),
{
    lemma_commands_distinct();
}

/// A stopped room answers no plain message: until `!start` or `!reset`, its
/// messages ask no worker.
pub proof fn lemma_stopped_room_asks_nothing(s: RouterView, r: int, b: BodyView)
    requires
        s.wf(),
        0 <= r < s.rooms.len(),
        !s.rooms[r].active,
        message_text(b) matches Some(q) && !is_command(q),
    ensures
        s.dispatch(r, b) == (s, ActionView::Inactive { room: r }),
{
}

/// A question goes to the worker that serves the room it was asked in, and
/// only when the bot is active there.
pub proof fn lemma_question_goes_to_room_worker(
    s: RouterView,
    own: Seq<char>,
    sender: Seq<char>,
    room_id: Seq<char>,
    b: BodyView,
)
    requires
        s.wf(),
    ensures
        ({
            let (t, a) = s.route_model(own, sender, room_id, b);
            a matches ActionView::Ask { room, worker, question } ==> {
                &&& 0 <= room < t.rooms.len()
                &&& t.rooms[room].id == room_id
                &&& t.rooms[room].worker == Some(worker)
                &&& t.rooms[room].active
                &&& t.slots[worker as int] == SlotState::Busy
                &&& message_text(b) == Some(question)
                &&& !is_command(question)
            }
        }),
{
    lemma_route_wf(s, own, sender, room_id, b);
    if sender != own {
        lemma_register_wf(s, room_id);
    }
}

/// `!reset` restores the room: its old worker is killed for every room it
/// served, its slot spawns anew, the room is active again and its new worker
/// (if any) is another one.
pub proof fn lemma_reset_replaces_worker(
    s: RouterView,
    own: Seq<char>,
    sender: Seq<char>,
    room_id: Seq<char>,
    b: BodyView,
)
    requires
        s.wf(),
    ensures
        ({
            let (t, a) = s.route_model(own, sender, room_id, b);
            a matches ActionView::Reset { room, killed, replacement } ==> {
                &&& message_text(b) == Some(reset_command())
                &&& 0 <= room < t.rooms.len()
                &&& t.rooms[room].id == room_id
                &&& t.rooms[room].active
                &&& t.rooms[room].worker == replacement
                &&& killed matches Some(k) ==> {
                    &&& t.slots[k as int] == SlotState::Spawning
                    &&& replacement != Some(k)
                    &&& forall|i: int| 0 <= i < t.rooms.len() ==> #[trigger] t.rooms[i].worker != Some(k)
                }
            }
        }),
{
    if sender != own {
        lemma_register_wf(s, room_id);
        let (s1, r) = s.register(room_id);
        let s2 = if s1.rooms[r].worker is None { s1.give_worker(r) } else { s1 };
        if s1.rooms[r].worker is None {
            lemma_give_worker_wf(s1, r);
        }
        lemma_reset_wf(s2, r);
    }
}

impl Router {
    /// A router without rooms whose `target` worker slots are all spawning:
    /// the caller starts one worker for each slot `0..target`.
    pub fn new(target: u8) -> (r: Router)
        ensures
            r@.wf(),
            r@.rooms.len() == 0,
            r@.ready.len() == 0,
            r@.slots == Seq::new(target as nat, |i: int| SlotState::Spawning),
    {
        let mut slots: Vec<SlotState> = Vec::new();
        let mut i: u8 = 0;
        while i < target
            invariant
                i <= target,
                slots@ == Seq::new(i as nat, |k: int| SlotState::Spawning),
            decreases target - i,
        {
            slots.push(SlotState::Spawning);
            proof {
                assert(slots@ =~= Seq::new((i + 1) as nat, |k: int| SlotState::Spawning));
            }
            i = i + 1;
        }
        let r = Router { rooms: Vec::new(), slots, ready: Vec::new() };
        proof {
            assert(r@.rooms =~= Seq::<RoomView>::empty());
        }
        r
    }

    fn find_room(&self, id: &String) -> (r: Option<usize>)
        requires
            self@.wf(),
        ensures
            match r {
                Some(i) => self@.find_room(id@) == Some(i as int),
                None => self@.find_room(id@) is None,
            },
    {
        let n = self.rooms.len();
        let mut i: usize = 0;
        while i < n
            invariant
                i <= n,
                n == self.rooms@.len(),
                self@.wf(),
                self@.rooms.len() == n,
                forall|k: int| 0 <= k < i ==> #[trigger] self@.rooms[k].id != id@,
            decreases n - i,
        {
            proof {
                assert(self@.rooms[i as int] == self.rooms@[i as int]@);
            }
            if self.rooms[i].id == *id {
                proof {
                    let s = self@;
                    assert(s.rooms[i as int].id == id@);
                    assert(exists|k: int| 0 <= k < s.rooms.len() && #[trigger] s.rooms[k].id == id@);
                    let c = choose|k: int| 0 <= k < s.rooms.len() && #[trigger] s.rooms[k].id == id@;
                    if c > i as int {
                        assert(s.rooms[i as int].id != s.rooms[c].id);
                    }
                }
                return Some(i);
            }
            i = i + 1;
        }
        None
    }

    /// The number of rooms served by slot `w`.
    fn room_load(&self, w: usize) -> (n: usize)
        ensures
            n == room_load(self@.rooms, w),
    {
        let len = self.rooms.len();
        let mut n: usize = 0;
        let mut i: usize = 0;
        proof {
            assert(self@.rooms.take(0) =~= Seq::<RoomView>::empty());
        }
        while i < len
            invariant
                i <= len,
                len == self@.rooms.len(),
                n <= i,
                n == room_load(self@.rooms.take(i as int), w),
            decreases len - i,
        {
            proof {
                assert(self@.rooms.take(i + 1).drop_last() =~= self@.rooms.take(i as int));
                assert(self@.rooms[i as int] == self.rooms@[i as int]@);
            }
            if self.rooms[i].worker == Some(w) {
                n = n + 1;
            }
            i = i + 1;
        }
        proof {
            assert(self@.rooms.take(len as int) =~= self@.rooms);
        }
        n
    }

    /// The busy slot that serves the fewest rooms, if any slot is busy.
    fn least_loaded(&self) -> (w: Option<usize>)
        requires
            self@.wf(),
        ensures
            w == self@.least_loaded(),
    {
        let n = self.slots.len();
        let mut best: Option<usize> = None;
        let mut best_load: usize = 0;
        let mut v: usize = 0;
        while v < n
            invariant
                v <= n,
                n == self@.slots.len(),
                best == self@.least_loaded_in(v as int),
                best matches Some(p) ==> best_load == room_load(self@.rooms, p),
            decreases n - v,
        {
            if self.slots[v] == SlotState::Busy {
                let load = self.room_load(v);
                match best {
                    None => {
                        best = Some(v);
                        best_load = load;
                    },
                    Some(_) => {
                        if load < best_load {
                            best = Some(v);
                            best_load = load;
                        }
                    },
                }
            }
            v = v + 1;
        }
        best
    }

    fn assign_front(&mut self, r: usize) -> (w: usize)
        requires
            old(self)@.wf(),
            r < old(self)@.rooms.len(),
            old(self)@.ready.len() > 0,
        ensures
            final(self)@ == old(self)@.assign_front(r as int),
            w == old(self)@.ready[0],
    {
        let w = self.ready.remove(0);
        self.slots.set(w, SlotState::Busy);
        let id = self.rooms[r].id.clone();
        let active = self.rooms[r].active;
        self.rooms.set(r, BotRoom { id, worker: Some(w), active });
        proof {
            let t = old(self)@.assign_front(r as int);
            assert(self@.rooms =~= t.rooms);
            assert(self@.ready =~= t.ready);
            assert(self@.slots =~= t.slots);
        }
        w
    }

    /// Whether some worker slot is spawning.
    fn any_spawning(&self) -> (b: bool)
        ensures
            b == self@.some_spawning(),
    {
        let n = self.slots.len();
        let mut v: usize = 0;
        while v < n
            invariant
                v <= n,
                n == self@.slots.len(),
                forall|k: int| 0 <= k < v ==> #[trigger] self@.slots[k] != SlotState::Spawning,
            decreases n - v,
        {
            if self.slots[v] == SlotState::Spawning {
                return true;
            }
            v = v + 1;
        }
        false
    }

    /// The first room without a worker, if any.
    fn first_waiting(&self) -> (r: Option<usize>)
        ensures
            match r {
                Some(i) => first_waiting(self@.rooms) == Some(i as int),
                None => first_waiting(self@.rooms) is None,
            },
    {
        proof {
            lemma_first_waiting(self@.rooms);
        }
        let n = self.rooms.len();
        let mut i: usize = 0;
        while i < n
            invariant
                i <= n,
                n == self@.rooms.len(),
                forall|k: int| 0 <= k < i ==> #[trigger] self@.rooms[k].worker is Some,
            decreases n - i,
        {
            proof {
                assert(self@.rooms[i as int] == self.rooms@[i as int]@);
            }
            if self.rooms[i].worker.is_none() {
                proof {
                    lemma_first_waiting_at(self@.rooms, i as int);
                }
                return Some(i);
            }
            i = i + 1;
        }
        None
    }

    fn give_worker(&mut self, r: usize)
        requires
            old(self)@.wf(),
            r < old(self)@.rooms.len(),
        ensures
            final(self)@ == old(self)@.give_worker(r as int),
    {
        if self.ready.len() > 0 {
            self.assign_front(r);
        } else if self.any_spawning() {
        } else {
            match self.least_loaded() {
                Some(w) => {
                    let id = self.rooms[r].id.clone();
                    let active = self.rooms[r].active;
                    self.rooms.set(r, BotRoom { id, worker: Some(w), active });
                    proof {
                        let t = old(self)@.give_worker(r as int);
                        assert(self@.rooms =~= t.rooms);
                    }
                },
                None => {},
            }
        }
    }

    fn kill_slot(&mut self, w: usize)
        requires
            old(self)@.wf(),
            w < old(self)@.slots.len(),
        ensures
            final(self)@ == old(self)@.kill_slot(w),
    {
        let n = self.rooms.len();
        let ghost target = old(self)@.kill_slot(w);
        let mut i: usize = 0;
        while i < n
            invariant
                i <= n,
                n == self.rooms@.len(),
                self.slots@ == old(self)@.slots,
                self.ready@ == old(self)@.ready,
                old(self)@.rooms.len() == n,
                target == old(self)@.kill_slot(w),
                target.rooms.len() == n,
                self@.rooms.len() == n,
                forall|k: int| 0 <= k < i ==> #[trigger] self@.rooms[k] == target.rooms[k],
                forall|k: int| i <= k < n ==> #[trigger] self@.rooms[k] == old(self)@.rooms[k],
            decreases n - i,
        {
            proof {
                assert(self@.rooms[i as int] == self.rooms@[i as int]@);
            }
            let ghost before = self@.rooms;
            proof {
                assert(before[i as int] == old(self)@.rooms[i as int]);
            }
            if self.rooms[i].worker == Some(w) {
                let id = self.rooms[i].id.clone();
                let active = self.rooms[i].active;
                self.rooms.set(i, BotRoom { id, worker: None, active });
                proof {
                    let nv = RoomView { worker: None, ..before[i as int] };
                    assert(self@.rooms =~= before.update(i as int, nv));
                    assert(target.rooms[i as int] == nv);
                }
            } else {
                proof {
                    assert(target.rooms[i as int] == before[i as int]);
                }
            }
            i = i + 1;
        }
        self.slots.set(w, SlotState::Spawning);
        proof {
            assert(self@.rooms =~= target.rooms);
            assert(self@.slots =~= target.slots);
        }
    }

    fn set_active(&mut self, r: usize, active: bool)
        requires
            r < old(self)@.rooms.len(),
        ensures
            final(self)@ == old(self)@.set_active(r as int, active),
    {
        let id = self.rooms[r].id.clone();
        let worker = self.rooms[r].worker;
        self.rooms.set(r, BotRoom { id, worker, active });
        proof {
            let t = old(self)@.set_active(r as int, active);
            assert(self@.rooms =~= t.rooms);
        }
    }

    /// A worker process for slot `w` is up. When the slot was spawning, the
    /// worker goes to the first room that waits for one, else to the back of
    /// the ready queue, and `true` comes back; else nothing changes and
    /// `false` comes back.
    pub fn worker_ready(&mut self, w: usize) -> (ok: bool)
        requires
            old(self)@.wf(),
        ensures
            final(self)@.wf(),
            (final(self)@, ok) == old(self)@.ready_model(w),
    {
        proof {
            lemma_ready_wf(self@, w);
        }
        if w < self.slots.len() && self.slots[w] == SlotState::Spawning {
            proof {
                lemma_first_waiting(self@.rooms);
            }
            match self.first_waiting() {
                Some(i) => {
                    self.slots.set(w, SlotState::Busy);
                    let id = self.rooms[i].id.clone();
                    let active = self.rooms[i].active;
                    self.rooms.set(i, BotRoom { id, worker: Some(w), active });
                    proof {
                        let t = old(self)@.ready_model(w).0;
                        assert(self@.rooms =~= t.rooms);
                        assert(self@.slots =~= t.slots);
                    }
                },
                None => {
                    self.slots.set(w, SlotState::Ready);
                    self.ready.push(w);
                    proof {
                        let t = old(self)@.ready_model(w).0;
                        assert(self@.rooms =~= t.rooms);
                        assert(self@.slots =~= t.slots);
                        assert(self@.ready =~= t.ready);
                    }
                },
            }
            true
        } else {
            false
        }
    }

    fn dispatch(&mut self, r: usize, b: &MessageBody) -> (a: RouteAction)
        requires
            old(self)@.wf(),
            r < old(self)@.rooms.len(),
        ensures
            (final(self)@, action_view(a)) == old(self)@.dispatch(r as int, body_view(*b)),
    {
        proof {
            assert(self@.rooms[r as int] == self.rooms@[r as int]@);
        }
        match b {
            MessageBody::Text { body, formatted } => {
                let text = match formatted {
                    Some(f) => f.clone(),
                    None => body.clone(),
                };
                if text == "!help".to_string() {
                    let help = "!help - Displays this.\n!start - Activates the bot.\n!stop - Terminates the bot.\n!reset - Restores the bot to its original state.".to_string();
                    RouteAction::Help { room: r, text: help }
                } else if text == "!start".to_string() {
                    self.set_active(r, true);
                    RouteAction::Start { room: r }
                } else if text == "!stop".to_string() {
                    self.set_active(r, false);
                    RouteAction::Stop { room: r }
                } else if text == "!reset".to_string() {
                    let killed = self.rooms[r].worker;
                    proof {
                        lemma_reset_wf(self@, r as int);
                    }
                    match killed {
                        Some(w) => {
                            proof {
                                assert(self@.rooms[r as int].worker == Some(w));
                            }
                            self.kill_slot(w);
                        },
                        None => {},
                    }
                    proof {
                        if let Some(w) = killed {
                            lemma_kill_slot_wf(old(self)@, w);
                        }
                    }
                    self.give_worker(r);
                    self.set_active(r, true);
                    proof {
                        assert(self@.rooms[r as int] == self.rooms@[r as int]@);
                    }
                    let replacement = self.rooms[r].worker;
                    RouteAction::Reset { room: r, killed, replacement }
                } else if !self.rooms[r].active {
                    RouteAction::Inactive { room: r }
                } else {
                    match self.rooms[r].worker {
                        Some(w) => RouteAction::Ask { room: r, worker: w, question: text },
                        None => RouteAction::AwaitWorker { room: r },
                    }
                }
            },
            MessageBody::Emote { body } => RouteAction::Emote { body: body.clone() },
            MessageBody::Other => RouteAction::Unhandled,
        }
    }

    /// Routes a message `ev` when the bot's own user is `own`: ignores the
    /// bot's own messages; registers the room (a new room is active); gives a
    /// room without a worker the front ready worker, else lets it wait for the
    /// worker being started, and only when every slot is busy shares the busy
    /// worker with the fewest rooms; then handles `!help`, `!start`, `!stop`
    /// and `!reset`, asks the room's worker any other text when the room is
    /// active, prints emotes and leaves other messages unhandled.
    pub fn route(&mut self, own: &String, ev: &RoomEvent) -> (a: RouteAction)
        requires
            old(self)@.wf(),
        ensures
            final(self)@.wf(),
            (final(self)@, action_view(a)) == old(self)@.route_model(
                own@,
                ev.sender@,
                ev.room_id@,
                body_view(ev.content),
            ),
    {
        proof {
            lemma_route_wf(self@, own@, ev.sender@, ev.room_id@, body_view(ev.content));
            lemma_register_wf(self@, ev.room_id@);
        }
        if ev.sender == *own {
            return RouteAction::Ignore;
        }
        let r = match self.find_room(&ev.room_id) {
            Some(r) => r,
            None => {
                let n = self.rooms.len();
                self.rooms.push(BotRoom { id: ev.room_id.clone(), worker: None, active: true });
                proof {
                    let t = old(self)@.register(ev.room_id@).0;
                    assert(self@.rooms =~= t.rooms);
                }
                n
            },
        };
        proof {
            assert(self@ == old(self)@.register(ev.room_id@).0);
            assert(self@.rooms[r as int] == self.rooms@[r as int]@);
        }
        if self.rooms[r].worker.is_none() {
            proof {
                lemma_give_worker_wf(self@, r as int);
            }
            self.give_worker(r);
        }
        self.dispatch(r, &ev.content)
    }

    /// Number of rooms.
    pub fn room_count(&self) -> (n: usize)
        ensures
            n == self@.rooms.len(),
    {
        self.rooms.len()
    }

    /// The worker slot serving room `i`, if any.
    pub fn room_worker(&self, i: usize) -> (w: Option<usize>)
        requires
            i < self@.rooms.len(),
        ensures
            w == self@.rooms[i as int].worker,
    {
        proof {
            assert(self@.rooms[i as int] == self.rooms@[i as int]@);
        }
        self.rooms[i].worker
    }

    /// Whether the bot answers in room `i`.
    pub fn room_active(&self, i: usize) -> (b: bool)
        requires
            i < self@.rooms.len(),
        ensures
            b == self@.rooms[i as int].active,
    {
        proof {
            assert(self@.rooms[i as int] == self.rooms@[i as int]@);
        }
        self.rooms[i].active
    }

    /// The id of room `i`.
    pub fn room_id(&self, i: usize) -> (id: String)
        requires
            i < self@.rooms.len(),
        ensures
            id@ == self@.rooms[i as int].id,
    {
        proof {
            assert(self@.rooms[i as int] == self.rooms@[i as int]@);
        }
        self.rooms[i].id.clone()
    }

    /// Number of worker slots.
    pub fn slot_count(&self) -> (n: usize)
        ensures
            n == self@.slots.len(),
    {
        self.slots.len()
    }

    /// What slot `w` is doing.
    pub fn slot_state(&self, w: usize) -> (st: SlotState)
        requires
            w < self@.slots.len(),
        ensures
            st == self@.slots[w as int],
    {
        self.slots[w]
    }

    /// The ready queue, front first.
    pub fn ready_workers(&self) -> (q: Vec<usize>)
        ensures
            q@ == self@.ready,
    {
        self.ready.clone()
    }
}

} // verus!
