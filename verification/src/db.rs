//! The event store: codec for event kinds, the append-only audit log,
//! the materialized final-state table, and the read paths over both.

use vstd::prelude::*;
use vstd::string::StrSliceExecFns;
use vstd::string::StringExecFns;

use crate::paging::above;
use crate::paging::lemma_filter_sorted;
use crate::paging::lemma_filter_split;
use crate::paging::lemma_sorted_filter_above;
use crate::paging::lemma_take_prefix;
use crate::paging::page_of;
use crate::paging::sorted_by;
use crate::text::contains_seq;
use crate::text::count_dots;
use crate::text::label_count;
use crate::text::lemma_lex_lt_irreflexive;
use crate::text::lemma_strip_label_dot_count;
use crate::text::lex_lt;
use crate::text::str_contains;
use crate::text::str_eq;
use crate::text::str_lt;
use crate::text::strip_first_label;
use crate::text::strip_label;

verus! {

/// The kind of change that an event announces.
#[derive(Clone, Copy, Debug, PartialEq, Eq, Structural)]
pub enum Types {
    CREATE,
    UPDATE,
    DELETE,
}

/// The serialized form of an event kind.
pub open spec fn spec_as_str(t: Types) -> Seq<char> {
    match t {
        Types::CREATE => "create"@,
        Types::UPDATE => "update"@,
        Types::DELETE => "delete"@,
    }
}

/// The event kind a raw string stands for, if any.
pub open spec fn spec_parse(s: Seq<char>) -> Option<Types> {
    if s == "create"@ {
        Some(Types::CREATE)
    } else if s == "update"@ {
        Some(Types::UPDATE)
    } else if s == "delete"@ {
        Some(Types::DELETE)
    } else {
        None
    }
}

impl Types {
    /// Serializes the event kind.
    pub fn as_str(&self) -> (r: &'static str)
        ensures
            r@ == spec_as_str(*self),
    {
        match self {
            Types::CREATE => "create",
            Types::UPDATE => "update",
            Types::DELETE => "delete",
        }
    }

    /// Parses a raw event kind, rejecting anything but the three
    /// known literals with a message naming the offending string.
    pub fn parse(s: &str) -> (r: Result<Types, String>)
        ensures
            match r {
                Ok(t) => spec_parse(s@) == Some(t),
                Err(m) => spec_parse(s@) is None && m@ == s@ + " is not a valid types"@,
            },
    {
        if str_eq(s, "create") {
            Ok(Types::CREATE)
        } else if str_eq(s, "update") {
            Ok(Types::UPDATE)
        } else if str_eq(s, "delete") {
            Ok(Types::DELETE)
        } else {
            Err(s.to_owned().concat(" is not a valid types"))
        }
    }
}

/// Serializing any event kind and parsing it back yields the kind the
/// serialization started from.
pub proof fn lemma_codec_round_trip(t: Types)
    ensures
        spec_parse(spec_as_str(t)) == Some(t),
{
    reveal_strlit("create");
    reveal_strlit("update");
    reveal_strlit("delete");
    match t {
        Types::CREATE => {
        },
        Types::UPDATE => {
            assert("update"@[0] != "create"@[0]);
        },
        Types::DELETE => {
            assert("delete"@[0] != "create"@[0]);
            assert("delete"@[0] != "update"@[0]);
        },
    }
}

/// An incoming change notification, and likewise a stored audit-log
/// row; `event_type` is carried in its raw serialized form.
#[derive(Clone, Debug, PartialEq, Eq)]
pub struct Event {
    pub id: String,
    pub name: String,
    pub date: String,
    pub event_type: String,
    pub data_id: String,
    pub data_type: String,
    pub content: String,
    pub desc: String,
    pub from: String,
}

/// The mathematical value of an audit-log row.
pub ghost struct EventSnap {
    pub id: Seq<char>,
    pub name: Seq<char>,
    pub date: Seq<char>,
    pub event_type: Seq<char>,
    pub data_id: Seq<char>,
    pub data_type: Seq<char>,
    pub content: Seq<char>,
    pub desc: Seq<char>,
    pub from: Seq<char>,
}

impl View for Event {
    type V = EventSnap;

    open spec fn view(&self) -> EventSnap {
        EventSnap {
            id: self.id@,
            name: self.name@,
            date: self.date@,
            event_type: self.event_type@,
            data_id: self.data_id@,
            data_type: self.data_type@,
            content: self.content@,
            desc: self.desc@,
            from: self.from@,
        }
    }
}

/// A record's current snapshot in the projection table.
#[derive(Clone, Debug, PartialEq, Eq)]
pub struct FinalState {
    pub id: String,
    pub name: String,
    pub date: String,
    pub data_type: String,
    pub content: String,
    pub desc: String,
}

/// The mathematical value of a projection row.
pub ghost struct StateSnap {
    pub id: Seq<char>,
    pub name: Seq<char>,
    pub date: Seq<char>,
    pub data_type: Seq<char>,
    pub content: Seq<char>,
    pub desc: Seq<char>,
}

impl View for FinalState {
    type V = StateSnap;

    open spec fn view(&self) -> StateSnap {
        StateSnap {
            id: self.id@,
            name: self.name@,
            date: self.date@,
            data_type: self.data_type@,
            content: self.content@,
            desc: self.desc@,
        }
    }
}

/// How an ingestion attempt can fail.
#[derive(Debug)]
pub enum SecretError {
    /// The event named an unknown kind; carries the message of the
    /// codec, which names the offending string.
    InvalidEventType(String),
    /// The projection write was refused by the store.
    ProjectionWriteFailed,
    /// The audit-log write was refused by the store.
    LogWriteFailed,
}

/// The rows of an audit log, each read as its mathematical value.
pub open spec fn events_views(es: Seq<Event>) -> Seq<EventSnap> {
    es.map_values(|e: Event| e@)
}

/// The rows of a projection table, each read as its mathematical
/// value.
pub open spec fn states_views(ss: Seq<FinalState>) -> Seq<StateSnap> {
    ss.map_values(|r: FinalState| r@)
}

/// The projection row that a `CREATE` or `UPDATE` event writes.
pub open spec fn snap_of_event(e: Event) -> StateSnap {
    StateSnap {
        id: e.data_id@,
        name: e.name@,
        date: e.date@,
        data_type: e.data_type@,
        content: e.content@,
        desc: e.desc@,
    }
}

/// The rows of a projection table ascend strictly by identifier.
pub open spec fn states_sorted(ss: Seq<FinalState>) -> bool {
    forall|i: int, j: int|
        0 <= i < j < ss.len() ==> lex_lt((#[trigger] ss[i]).id@, (#[trigger] ss[j]).id@)
}

/// The rows of an audit log ascend by date, ties kept in the order
/// they were appended.
pub open spec fn events_sorted(es: Seq<Event>) -> bool {
    forall|i: int, j: int|
        0 <= i < j < es.len() ==> !lex_lt((#[trigger] es[j]).date@, (#[trigger] es[i]).date@)
}

/// Some row of `ss` carries the identifier `k`.
pub open spec fn seq_has_id(ss: Seq<FinalState>, k: Seq<char>) -> bool {
    exists|i: int| 0 <= i < ss.len() && (#[trigger] ss[i]).id@ == k
}

/// The position of the row of `ss` that carries `k`.
pub open spec fn idx_of_id(ss: Seq<FinalState>, k: Seq<char>) -> int {
    choose|i: int| 0 <= i < ss.len() && (#[trigger] ss[i]).id@ == k
}

/// The projection table read as a map from identifier to snapshot.
pub open spec fn map_of_states(ss: Seq<FinalState>) -> Map<Seq<char>, StateSnap> {
    Map::new(|k: Seq<char>| seq_has_id(ss, k), |k: Seq<char>| ss[idx_of_id(ss, k)]@)
}

/// In a strictly sorted table, a row's identifier determines its
/// position, and the derived map sends that identifier to that row.
proof fn lemma_row_determined(ss: Seq<FinalState>, i: int)
    requires
        states_sorted(ss),
        0 <= i < ss.len(),
    ensures
        seq_has_id(ss, ss[i].id@),
        idx_of_id(ss, ss[i].id@) == i,
        map_of_states(ss).dom().contains(ss[i].id@),
        map_of_states(ss)[ss[i].id@] == ss[i]@,
{
    assert(seq_has_id(ss, ss[i].id@)) by {
        assert(0 <= i < ss.len() && (ss[i]).id@ == ss[i].id@);
    }
    let j = idx_of_id(ss, ss[i].id@);
    assert(0 <= j < ss.len() && (ss[j]).id@ == ss[i].id@);
    if i < j || j < i {
        lemma_lex_lt_irreflexive(ss[i].id@);
    }
}

/// Overwriting a row in place with one that keeps its identifier
/// keeps the table sorted and updates the derived map at that key.
proof fn lemma_sorted_update(ss: Seq<FinalState>, i: int, row: FinalState)
    requires
        states_sorted(ss),
        0 <= i < ss.len(),
        row.id@ == ss[i].id@,
    ensures
        states_sorted(ss.update(i, row)),
        map_of_states(ss.update(i, row)) == map_of_states(ss).insert(row.id@, row@),
{
    let s2 = ss.update(i, row);
    assert(forall|j: int| 0 <= j < ss.len() ==> (#[trigger] s2[j]).id@ == ss[j].id@);
    assert(states_sorted(s2));
    let m1 = map_of_states(s2);
    let m2 = map_of_states(ss).insert(row.id@, row@);
    assert forall|k: Seq<char>| #[trigger] m1.dom().contains(k) implies m2.dom().contains(k)
        && m1[k] == m2[k] by {
        let w = choose|w: int| 0 <= w < s2.len() && (#[trigger] s2[w]).id@ == k;
        lemma_row_determined(s2, w);
        if w == i {
            assert(m1[k] == row@);
        } else {
            lemma_row_determined(ss, w);
            assert(k != row.id@) by {
                if k == row.id@ {
                    lemma_lex_lt_irreflexive(k);
                }
            }
        }
    }
    assert forall|k: Seq<char>| #[trigger] m2.dom().contains(k) implies m1.dom().contains(k) by {
        if k == row.id@ {
            assert(0 <= i < s2.len() && (s2[i]).id@ == k);
        } else {
            let w = choose|w: int| 0 <= w < ss.len() && (#[trigger] ss[w]).id@ == k;
            assert(0 <= w < s2.len() && (s2[w]).id@ == k);
        }
    }
    assert(m1 =~= m2);
}

/// Inserting a row between its strict neighbours keeps the table
/// sorted and adds its identifier to the derived map.
proof fn lemma_sorted_insert(ss: Seq<FinalState>, i: int, row: FinalState)
    requires
        states_sorted(ss),
        0 <= i <= ss.len(),
        forall|j: int| 0 <= j < i ==> lex_lt((#[trigger] ss[j]).id@, row.id@),
        forall|j: int| i <= j < ss.len() ==> lex_lt(row.id@, (#[trigger] ss[j]).id@),
    ensures
        states_sorted(ss.insert(i, row)),
        map_of_states(ss.insert(i, row)) == map_of_states(ss).insert(row.id@, row@),
{
    let s2 = ss.insert(i, row);
    assert(forall|j: int| 0 <= j < i ==> s2[j] == ss[j]);
    assert(forall|j: int| i < j < s2.len() ==> s2[j] == ss[j - 1]);
    assert(s2[i] == row);
    assert forall|a: int, b: int| 0 <= a < b < s2.len() implies lex_lt(
        (s2[a]).id@,
        (s2[b]).id@,
    ) by {
        if a < i && b > i {
            assert(lex_lt((ss[a]).id@, (ss[b - 1]).id@));
        }
    }
    let m1 = map_of_states(s2);
    let m2 = map_of_states(ss).insert(row.id@, row@);
    assert forall|k: Seq<char>| #[trigger] m1.dom().contains(k) implies m2.dom().contains(k)
        && m1[k] == m2[k] by {
        let w = choose|w: int| 0 <= w < s2.len() && (#[trigger] s2[w]).id@ == k;
        lemma_row_determined(s2, w);
        if w == i {
            assert(m1[k] == row@);
        } else if w < i {
            lemma_row_determined(ss, w);
            assert(k != row.id@) by {
                if k == row.id@ {
                    lemma_lex_lt_irreflexive(k);
                }
            }
        } else {
            lemma_row_determined(ss, w - 1);
            assert(k != row.id@) by {
                if k == row.id@ {
                    lemma_lex_lt_irreflexive(k);
                }
            }
        }
    }
    assert forall|k: Seq<char>| #[trigger] m2.dom().contains(k) implies m1.dom().contains(k) by {
        if k == row.id@ {
            assert(0 <= i < s2.len() && (s2[i]).id@ == k);
        } else {
            let w = choose|w: int| 0 <= w < ss.len() && (#[trigger] ss[w]).id@ == k;
            if w < i {
                assert(0 <= w < s2.len() && (s2[w]).id@ == k);
            } else {
                assert(0 <= w + 1 < s2.len() && (s2[w + 1]).id@ == k);
            }
        }
    }
    assert(m1 =~= m2);
}

/// Removing a row keeps the table sorted and removes exactly its
/// identifier from the derived map.
proof fn lemma_sorted_remove(ss: Seq<FinalState>, i: int)
    requires
        states_sorted(ss),
        0 <= i < ss.len(),
    ensures
        states_sorted(ss.remove(i)),
        map_of_states(ss.remove(i)) == map_of_states(ss).remove(ss[i].id@),
{
    let s2 = ss.remove(i);
    assert(forall|j: int| 0 <= j < i ==> s2[j] == ss[j]);
    assert(forall|j: int| i <= j < s2.len() ==> s2[j] == ss[j + 1]);
    assert(states_sorted(s2));
    let m1 = map_of_states(s2);
    let m2 = map_of_states(ss).remove(ss[i].id@);
    assert forall|k: Seq<char>| #[trigger] m1.dom().contains(k) implies m2.dom().contains(k)
        && m1[k] == m2[k] by {
        let w = choose|w: int| 0 <= w < s2.len() && (#[trigger] s2[w]).id@ == k;
        lemma_row_determined(s2, w);
        if w < i {
            lemma_row_determined(ss, w);
            assert(k != ss[i].id@) by {
                if k == ss[i].id@ {
                    lemma_lex_lt_irreflexive(k);
                }
            }
        } else {
            lemma_row_determined(ss, w + 1);
            assert(k != ss[i].id@) by {
                if k == ss[i].id@ {
                    lemma_lex_lt_irreflexive(k);
                }
            }
        }
    }
    assert forall|k: Seq<char>| #[trigger] m2.dom().contains(k) implies m1.dom().contains(k) by {
        let w = choose|w: int| 0 <= w < ss.len() && (#[trigger] ss[w]).id@ == k;
        assert(w != i) by {
            if w == i {
                lemma_lex_lt_irreflexive(k);
            }
        }
        if w < i {
            assert(0 <= w < s2.len() && (s2[w]).id@ == k);
        } else {
            assert(0 <= w - 1 < s2.len() && (s2[w - 1]).id@ == k);
        }
    }
    assert(m1 =~= m2);
}

/// Removing an identifier that no row carries leaves the derived map
/// as it was.
proof fn lemma_map_remove_absent(ss: Seq<FinalState>, k: Seq<char>)
    requires
        !seq_has_id(ss, k),
    ensures
        map_of_states(ss).remove(k) == map_of_states(ss),
{
    assert(map_of_states(ss).remove(k) =~= map_of_states(ss));
}

/// The snapshot an audit row records for a `DELETE`: the row itself
/// is gone, so the event's own fields stand in, keyed by the event's
/// `id` rather than its `data_id`.
pub open spec fn delete_snap_of_event(e: Event) -> StateSnap {
    StateSnap {
        id: e.id@,
        name: e.name@,
        date: e.date@,
        data_type: e.data_type@,
        content: e.content@,
        desc: e.desc@,
    }
}

/// The audit row written for an event of kind `t` whose projection
/// snapshot was `state`: a fresh 36-character identifier of its own,
/// the snapshot's fields with the snapshot's key as `data_id`, the
/// serialized kind, and the event's originator.
pub open spec fn appended_row(row: EventSnap, state: StateSnap, e: EventSnap, t: Types) -> bool {
    &&& row.id.len() == 36
    &&& row.name == state.name
    &&& row.date == state.date
    &&& row.event_type == spec_as_str(t)
    &&& row.data_id == state.id
    &&& row.data_type == state.data_type
    &&& row.content == state.content
    &&& row.desc == state.desc
    &&& row.from == e.from
}

/// `post` is `pre` with one such audit row added at some position.
pub open spec fn log_gained_row(
    pre: Seq<EventSnap>,
    post: Seq<EventSnap>,
    state: StateSnap,
    e: EventSnap,
    t: Types,
) -> bool {
    exists|k: int, row: EventSnap|
        0 <= k <= pre.len() && post == #[trigger] pre.insert(k, row) && appended_row(
            row,
            state,
            e,
            t,
        )
}

/// Relies on `uuid::Uuid::new_v4` and its `Display` form: a freshly
/// drawn random identifier always renders as 36 characters in the
/// hyphenated format.
#[verifier::external_body]
fn new_log_id() -> (r: String)
    ensures
        r@.len() == 36,
{
    uuid::Uuid::new_v4().to_string()
}

/// Inserting a row keeps the views of the rest in their places.
proof fn lemma_events_views_insert(es: Seq<Event>, k: int, row: Event)
    requires
        0 <= k <= es.len(),
    ensures
        events_views(es.insert(k, row)) == events_views(es).insert(k, row@),
{
    assert(events_views(es.insert(k, row)) =~= events_views(es).insert(k, row@));
}

/// Whether a key lies strictly beyond the cursor; an absent cursor
/// admits every key.
pub open spec fn cursor_lt(cursor: Option<Seq<char>>, k: Seq<char>) -> bool {
    match cursor {
        None => true,
        Some(c) => lex_lt(c, k),
    }
}

/// The mathematical value of an optional cursor.
pub open spec fn cursor_view(c: Option<String>) -> Option<Seq<char>> {
    match c {
        None => None,
        Some(s) => Some(s@),
    }
}

/// Selects projection rows of category `cat` beyond `cursor`.
pub open spec fn state_sel(cat: Seq<char>, cursor: Option<Seq<char>>) -> spec_fn(
    StateSnap,
) -> bool {
    |s: StateSnap| s.data_type == cat && cursor_lt(cursor, s.id)
}

/// Selects audit rows dated beyond `cursor` whose kind parses; rows
/// whose kind does not parse are dropped rather than failing replay.
pub open spec fn event_sel(cursor: Option<Seq<char>>) -> spec_fn(EventSnap) -> bool {
    |e: EventSnap| cursor_lt(cursor, e.date) && spec_parse(e.event_type) is Some
}

/// Selects snapshots that mention `host` in their name or
/// description.
pub open spec fn host_sel(host: Seq<char>) -> spec_fn(StateSnap) -> bool {
    |s: StateSnap| contains_seq(s.name, host) || contains_seq(s.desc, host)
}

/// A projection row's sort key.
pub open spec fn state_key() -> spec_fn(StateSnap) -> Seq<char> {
    |s: StateSnap| s.id
}

/// An audit row's sort key.
pub open spec fn event_key() -> spec_fn(EventSnap) -> Seq<char> {
    |e: EventSnap| e.date
}

/// Appending a projection row appends its view.
proof fn lemma_states_views_push(ss: Seq<FinalState>, r: FinalState)
    ensures
        states_views(ss.push(r)) == states_views(ss).push(r@),
{
    assert(states_views(ss.push(r)) =~= states_views(ss).push(r@));
}

/// Appending an audit row appends its view.
proof fn lemma_events_views_push(es: Seq<Event>, r: Event)
    ensures
        events_views(es.push(r)) == events_views(es).push(r@),
{
    assert(events_views(es.push(r)) =~= events_views(es).push(r@));
}

/// A field-for-field copy of a projection row.
fn clone_state(r: &FinalState) -> (c: FinalState)
    ensures
        c == *r,
{
    FinalState {
        id: r.id.clone(),
        name: r.name.clone(),
        date: r.date.clone(),
        data_type: r.data_type.clone(),
        content: r.content.clone(),
        desc: r.desc.clone(),
    }
}

/// A field-for-field copy of an audit row.
fn clone_event(r: &Event) -> (c: Event)
    ensures
        c == *r,
{
    Event {
        id: r.id.clone(),
        name: r.name.clone(),
        date: r.date.clone(),
        event_type: r.event_type.clone(),
        data_id: r.data_id.clone(),
        data_type: r.data_type.clone(),
        content: r.content.clone(),
        desc: r.desc.clone(),
        from: r.from.clone(),
    }
}

/// The event store: an append-only audit log kept in ascending date
/// order, and the materialized current-state table kept in ascending
/// identifier order.
pub struct Store {
    events: Vec<Event>,
    states: Vec<FinalState>,
}

impl Store {
    /// Both tables are ordered as the read paths require.
    pub closed spec fn wf(self) -> bool {
        &&& states_sorted(self.states@)
        &&& events_sorted(self.events@)
    }

    /// The audit log, in the order replay returns it.
    pub closed spec fn log(self) -> Seq<EventSnap> {
        events_views(self.events@)
    }

    /// The projection read as a map from record identifier to its
    /// current snapshot.
    pub closed spec fn states_map(self) -> Map<Seq<char>, StateSnap> {
        map_of_states(self.states@)
    }

    /// The projection rows in ascending identifier order.
    pub closed spec fn snaps(self) -> Seq<StateSnap> {
        states_views(self.states@)
    }

    /// An empty store.
    pub fn new() -> (s: Store)
        ensures
            s.wf(),
            s.log() == Seq::<EventSnap>::empty(),
            s.snaps() == Seq::<StateSnap>::empty(),
            s.states_map() == Map::<Seq<char>, StateSnap>::empty(),
    {
        let s = Store { events: Vec::new(), states: Vec::new() };
        proof {
            assert(s.log() =~= Seq::<EventSnap>::empty());
            assert(s.snaps() =~= Seq::<StateSnap>::empty());
            assert(s.states_map() =~= Map::<Seq<char>, StateSnap>::empty());
        }
        s
    }

    /// Writes `row` at its place in identifier order, overwriting any
    /// row that already carries its identifier.
    fn upsert_state(&mut self, row: FinalState)
        requires
            old(self).wf(),
        ensures
            final(self).wf(),
            final(self).events@ == old(self).events@,
            final(self).states_map() == old(self).states_map().insert(row.id@, row@),
    {
        let n = self.states.len();
        let mut i: usize = 0;
        while i < n && str_lt(self.states[i].id.as_str(), row.id.as_str())
            invariant
                i <= n,
                n == self.states@.len(),
                *self == *old(self),
                forall|j: int| 0 <= j < i ==> lex_lt((#[trigger] self.states@[j]).id@, row.id@),
            decreases n - i,
        {
            i += 1;
        }
        let ghost pre = self.states@;
        if i < n && str_eq(self.states[i].id.as_str(), row.id.as_str()) {
            proof {
                lemma_sorted_update(pre, i as int, row);
            }
            self.states.remove(i);
            self.states.insert(i, row);
            proof {
                assert(self.states@ =~= pre.update(i as int, row));
            }
        } else {
            proof {
                assert forall|j: int| i <= j < pre.len() implies lex_lt(
                    row.id@,
                    (#[trigger] pre[j]).id@,
                ) by {
                    crate::text::lemma_lex_lt_trichotomy(row.id@, pre[i as int].id@);
                    if i < j {
                        assert(lex_lt((pre[i as int]).id@, (pre[j]).id@));
                        if lex_lt(row.id@, pre[i as int].id@) {
                            crate::text::lemma_lex_lt_transitive(
                                row.id@,
                                pre[i as int].id@,
                                pre[j].id@,
                            );
                        }
                    }
                }
                lemma_sorted_insert(pre, i as int, row);
            }
            self.states.insert(i, row);
        }
    }

    /// Applies an event of kind `t` to the projection: `CREATE` and
    /// `UPDATE` upsert the row keyed by the event's `data_id`, and
    /// `DELETE` removes that row, present or not. Returns the
    /// snapshot the audit log records: the row just written, or, for
    /// `DELETE`, the event's own fields keyed by the event's `id`.
    pub fn save_state(&mut self, event: &Event, t: Types) -> (state: FinalState)
        requires
            old(self).wf(),
        ensures
            final(self).wf(),
            final(self).log() == old(self).log(),
            (t is CREATE || t is UPDATE) ==> final(self).states_map() == old(
                self,
            ).states_map().insert(event.data_id@, snap_of_event(*event)) && state@ == snap_of_event(
                *event,
            ),
            t is DELETE ==> final(self).states_map() == old(self).states_map().remove(
                event.data_id@,
            ) && state@ == delete_snap_of_event(*event),
    {
        match t {
            Types::CREATE | Types::UPDATE => {
                let row = FinalState {
                    id: event.data_id.clone(),
                    name: event.name.clone(),
                    date: event.date.clone(),
                    data_type: event.data_type.clone(),
                    content: event.content.clone(),
                    desc: event.desc.clone(),
                };
                let state = FinalState {
                    id: row.id.clone(),
                    name: row.name.clone(),
                    date: row.date.clone(),
                    data_type: row.data_type.clone(),
                    content: row.content.clone(),
                    desc: row.desc.clone(),
                };
                self.upsert_state(row);
                state
            },
            Types::DELETE => {
                self.delete_state(&event.data_id);
                FinalState {
                    id: event.id.clone(),
                    name: event.name.clone(),
                    date: event.date.clone(),
                    data_type: event.data_type.clone(),
                    content: event.content.clone(),
                    desc: event.desc.clone(),
                }
            },
        }
    }

    /// Places `row` in the audit log at its position in date order,
    /// after any row carrying the same date.
    fn insert_event(&mut self, row: Event)
        requires
            old(self).wf(),
        ensures
            final(self).wf(),
            final(self).states@ == old(self).states@,
            exists|k: int|
                0 <= k <= old(self).events@.len() && final(self).events@ == #[trigger] old(
                    self,
                ).events@.insert(k, row),
    {
        let n = self.events.len();
        let mut i: usize = 0;
        while i < n && !str_lt(row.date.as_str(), self.events[i].date.as_str())
            invariant
                i <= n,
                n == self.events@.len(),
                *self == *old(self),
                self.wf(),
                forall|j: int| 0 <= j < i ==> !lex_lt(row.date@, (#[trigger] self.events@[j]).date@),
            decreases n - i,
        {
            i += 1;
        }
        proof {
            let pre = self.events@;
            assert forall|j: int| i <= j < pre.len() implies !lex_lt(
                (#[trigger] pre[j]).date@,
                row.date@,
            ) by {
                if lex_lt(pre[j].date@, row.date@) {
                    if (i as int) < j {
                        assert(!lex_lt((pre[j]).date@, (pre[i as int]).date@));
                        crate::text::lemma_lex_lt_transitive(
                            pre[j].date@,
                            row.date@,
                            pre[i as int].date@,
                        );
                    } else {
                        crate::text::lemma_lex_lt_asymmetric(row.date@, pre[i as int].date@);
                    }
                }
            }
            let s2 = pre.insert(i as int, row);
            assert(forall|j: int| 0 <= j < i ==> s2[j] == pre[j]);
            assert(forall|j: int| i < j < s2.len() ==> s2[j] == pre[j - 1]);
            assert(s2[i as int] == row);
            assert forall|a: int, b: int| 0 <= a < b < s2.len() implies !lex_lt(
                (s2[b]).date@,
                (s2[a]).date@,
            ) by {
                if a < i && b > i {
                    assert(!lex_lt((pre[b - 1]).date@, (pre[a]).date@));
                }
            }
        }
        self.events.insert(i, row);
    }

    /// Appends the audit row for `event`, whose projection produced
    /// the snapshot `state`: one log write, with a fresh identifier.
    pub fn store_event(&mut self, event: &Event, t: Types, state: &FinalState) -> (r: Result<
        (),
        SecretError,
    >)
        requires
            old(self).wf(),
        ensures
            final(self).wf(),
            r is Ok,
            final(self).states_map() == old(self).states_map(),
            final(self).snaps() == old(self).snaps(),
            log_gained_row(old(self).log(), final(self).log(), state@, event@, t),
    {
        let id = new_log_id();
        let row = Event {
            id,
            name: state.name.clone(),
            date: state.date.clone(),
            event_type: t.as_str().to_owned(),
            data_id: state.id.clone(),
            data_type: state.data_type.clone(),
            content: state.content.clone(),
            desc: state.desc.clone(),
            from: event.from.clone(),
        };
        let ghost rowsnap = row@;
        self.insert_event(row);
        proof {
            let k = choose|k: int|
                0 <= k <= old(self).events@.len() && self.events@ == #[trigger] old(
                    self,
                ).events@.insert(k, row);
            lemma_events_views_insert(old(self).events@, k, row);
            assert(appended_row(rowsnap, state@, event@, t));
            assert(log_gained_row(old(self).log(), self.log(), state@, event@, t));
        }
        Ok(())
    }

    /// Ingests one event: validates its kind, projects it onto the
    /// final-state table, then appends the audit row; a rejected kind
    /// leaves both tables untouched and names the offending string.
    pub fn push_event(&mut self, event: Event) -> (r: Result<(), SecretError>)
        requires
            old(self).wf(),
        ensures
            final(self).wf(),
            match spec_parse(event.event_type@) {
                None => {
                    &&& r matches Err(SecretError::InvalidEventType(m)) && m@ == event.event_type@
                        + " is not a valid types"@
                    &&& final(self).states_map() == old(self).states_map()
                    &&& final(self).log() == old(self).log()
                },
                Some(t) => {
                    &&& r is Ok
                    &&& (t is CREATE || t is UPDATE) ==> final(self).states_map() == old(
                        self,
                    ).states_map().insert(event.data_id@, snap_of_event(event)) && log_gained_row(
                        old(self).log(),
                        final(self).log(),
                        snap_of_event(event),
                        event@,
                        t,
                    )
                    &&& t is DELETE ==> final(self).states_map() == old(self).states_map().remove(
                        event.data_id@,
                    ) && log_gained_row(
                        old(self).log(),
                        final(self).log(),
                        delete_snap_of_event(event),
                        event@,
                        t,
                    )
                },
            },
    {
        let t = match Types::parse(event.event_type.as_str()) {
            Ok(t) => t,
            Err(m) => {
                return Err(SecretError::InvalidEventType(m));
            },
        };
        let state = self.save_state(&event, t);
        self.store_event(&event, t, &state)
    }

    /// Every projection row of category `cat` whose identifier lies
    /// beyond `cursor`, in ascending identifier order.
    pub open spec fn selected_states(self, cat: Seq<char>, cursor: Option<Seq<char>>) -> Seq<
        StateSnap,
    > {
        self.snaps().filter(state_sel(cat, cursor))
    }

    /// Every audit row dated beyond `cursor` whose kind parses, in
    /// log order.
    pub open spec fn selected_events(self, cursor: Option<Seq<char>>) -> Seq<EventSnap> {
        self.log().filter(event_sel(cursor))
    }

    /// One page of the projection for category `data_type`: the rows
    /// beyond `last_fetch_id`, ascending by identifier, capped at
    /// ten.
    pub fn fetch_states(&self, data_type: String, last_fetch_id: Option<String>) -> (r: Vec<
        FinalState,
    >)
        requires
            self.wf(),
        ensures
            r@.len() <= 10,
            states_views(r@) == page_of(
                self.selected_states(data_type@, cursor_view(last_fetch_id)),
                10,
            ),
    {
        let ghost sel = state_sel(data_type@, cursor_view(last_fetch_id));
        let mut out: Vec<FinalState> = Vec::new();
        let n = self.states.len();
        let mut i: usize = 0;
        proof {
            reveal(Seq::filter);
            assert(self.snaps().take(0) =~= Seq::<StateSnap>::empty());
            assert(states_views(out@) =~= self.snaps().take(0).filter(sel));
        }
        while i < n && out.len() < 10
            invariant
                i <= n,
                n == self.states@.len(),
                self.wf(),
                out@.len() <= 10,
                states_views(out@) == self.snaps().take(i as int).filter(sel),
                sel == state_sel(data_type@, cursor_view(last_fetch_id)),
            decreases n - i,
        {
            let row = &self.states[i];
            let selected = str_eq(row.data_type.as_str(), data_type.as_str()) && (match (
            &last_fetch_id) {
                None => true,
                Some(c) => str_lt(c.as_str(), row.id.as_str()),
            });
            proof {
                assert(self.snaps()[i as int] == self.states@[i as int]@);
                assert(sel(self.snaps()[i as int]) == selected);
                crate::paging::lemma_filter_take_step(self.snaps(), sel, i as int);
            }
            if selected {
                proof {
                    lemma_states_views_push(out@, *row);
                }
                out.push(clone_state(row));
            }
            i += 1;
        }
        proof {
            let q = self.selected_states(data_type@, cursor_view(last_fetch_id));
            if i == n {
                assert(self.snaps().take(n as int) =~= self.snaps());
                assert(states_views(out@) == q);
                assert(q.len() <= 10);
            } else {
                let part1 = self.snaps().take(i as int);
                let part2 = self.snaps().skip(i as int);
                assert(part1 + part2 =~= self.snaps());
                Seq::filter_distributes_over_add(part1, part2, sel);
                assert(q == states_views(out@) + part2.filter(sel));
                lemma_take_prefix(states_views(out@), part2.filter(sel));
                assert(q.len() >= 10);
                assert(page_of(q, 10) == states_views(out@));
            }
        }
        out
    }

    /// One page of audit-log replay: the rows dated beyond `cursor`,
    /// ascending by date, capped at ten; rows whose kind no longer
    /// parses are dropped rather than failing the whole read.
    pub fn fetch_events(&self, cursor: Option<String>) -> (r: Vec<Event>)
        requires
            self.wf(),
        ensures
            r@.len() <= 10,
            events_views(r@) == page_of(self.selected_events(cursor_view(cursor)), 10),
    {
        let ghost sel = event_sel(cursor_view(cursor));
        let mut out: Vec<Event> = Vec::new();
        let n = self.events.len();
        let mut i: usize = 0;
        proof {
            reveal(Seq::filter);
            assert(self.log().take(0) =~= Seq::<EventSnap>::empty());
            assert(events_views(out@) =~= self.log().take(0).filter(sel));
        }
        while i < n && out.len() < 10
            invariant
                i <= n,
                n == self.events@.len(),
                self.wf(),
                out@.len() <= 10,
                events_views(out@) == self.log().take(i as int).filter(sel),
                sel == event_sel(cursor_view(cursor)),
            decreases n - i,
        {
            let row = &self.events[i];
            let beyond = match (&cursor) {
                None => true,
                Some(c) => str_lt(c.as_str(), row.date.as_str()),
            };
            let parses = match Types::parse(row.event_type.as_str()) {
                Ok(_) => true,
                Err(_) => false,
            };
            let selected = beyond && parses;
            proof {
                assert(self.log()[i as int] == self.events@[i as int]@);
                assert(sel(self.log()[i as int]) == selected);
                crate::paging::lemma_filter_take_step(self.log(), sel, i as int);
            }
            if selected {
                proof {
                    lemma_events_views_push(out@, *row);
                }
                out.push(clone_event(row));
            }
            i += 1;
        }
        proof {
            let q = self.selected_events(cursor_view(cursor));
            if i == n {
                assert(self.log().take(n as int) =~= self.log());
                assert(events_views(out@) == q);
                assert(q.len() <= 10);
            } else {
                let part1 = self.log().take(i as int);
                let part2 = self.log().skip(i as int);
                assert(part1 + part2 =~= self.log());
                Seq::filter_distributes_over_add(part1, part2, sel);
                assert(q == events_views(out@) + part2.filter(sel));
                lemma_take_prefix(events_views(out@), part2.filter(sel));
                assert(q.len() >= 10);
                assert(page_of(q, 10) == events_views(out@));
            }
        }
        out
    }

    /// What the fuzzy lookup returns for `host`: every row that
    /// mentions it, or, when there is none and the host still has
    /// more than two dot-separated labels, the result for the host
    /// with its leftmost label stripped.
    pub open spec fn find_result(self, host: Seq<char>) -> Seq<StateSnap>
        decreases host.len(),
        via Self::find_result_decreases
    {
        let direct = self.snaps().filter(host_sel(host));
        if direct.len() > 0 {
            direct
        } else if label_count(host) > 2 {
            self.find_result(strip_label(host))
        } else {
            direct
        }
    }

    #[via_fn]
    proof fn find_result_decreases(self, host: Seq<char>) {
        if label_count(host) > 2 {
            lemma_strip_label_dot_count(host);
        }
    }

    /// All projection rows that mention `host` in their name or
    /// description, in ascending identifier order.
    fn matching_states(&self, host: &str) -> (r: Vec<FinalState>)
        requires
            self.wf(),
        ensures
            states_views(r@) == self.snaps().filter(host_sel(host@)),
    {
        let ghost sel = host_sel(host@);
        let mut out: Vec<FinalState> = Vec::new();
        let n = self.states.len();
        let mut i: usize = 0;
        proof {
            reveal(Seq::filter);
            assert(self.snaps().take(0) =~= Seq::<StateSnap>::empty());
            assert(states_views(out@) =~= self.snaps().take(0).filter(sel));
        }
        while i < n
            invariant
                i <= n,
                n == self.states@.len(),
                self.wf(),
                states_views(out@) == self.snaps().take(i as int).filter(sel),
                sel == host_sel(host@),
            decreases n - i,
        {
            let row = &self.states[i];
            let selected = str_contains(row.name.as_str(), host) || str_contains(
                row.desc.as_str(),
                host,
            );
            proof {
                assert(self.snaps()[i as int] == self.states@[i as int]@);
                assert(sel(self.snaps()[i as int]) == selected);
                crate::paging::lemma_filter_take_step(self.snaps(), sel, i as int);
            }
            if selected {
                proof {
                    lemma_states_views_push(out@, *row);
                }
                out.push(clone_state(row));
            }
            i += 1;
        }
        proof {
            assert(self.snaps().take(n as int) =~= self.snaps());
        }
        out
    }

    /// Fuzzy lookup: the rows that mention `host`, falling back to
    /// ever broader parent domains while nothing matches and more
    /// than two labels remain.
    pub fn fetch_state(&self, host: String) -> (r: Vec<FinalState>)
        requires
            self.wf(),
        ensures
            states_views(r@) == self.find_result(host@),
    {
        let ghost orig = host@;
        let mut h = host;
        loop
            invariant
                self.wf(),
                self.find_result(h@) == self.find_result(orig),
                orig == host@,
            decreases h@.len(),
        {
            let rows = self.matching_states(h.as_str());
            if rows.len() > 0 {
                return rows;
            }
            let dots = count_dots(h.as_str());
            if dots >= 2 {
                proof {
                    lemma_strip_label_dot_count(h@);
                }
                h = strip_first_label(h.as_str());
            } else {
                return rows;
            }
        }
    }

    /// Removes the row carrying `key`, if any; absent keys are a
    /// no-op.
    fn delete_state(&mut self, key: &String)
        requires
            old(self).wf(),
        ensures
            final(self).wf(),
            final(self).events@ == old(self).events@,
            final(self).states_map() == old(self).states_map().remove(key@),
    {
        let n = self.states.len();
        let mut i: usize = 0;
        while i < n
            invariant
                i <= n,
                n == self.states@.len(),
                *self == *old(self),
                self.wf(),
                forall|j: int| 0 <= j < i ==> (#[trigger] self.states@[j]).id@ != key@,
            decreases n - i,
        {
            if str_eq(self.states[i].id.as_str(), key.as_str()) {
                proof {
                    lemma_sorted_remove(self.states@, i as int);
                }
                self.states.remove(i);
                return ;
            }
            i += 1;
        }
        proof {
            assert(!seq_has_id(self.states@, key@));
            lemma_map_remove_absent(self.states@, key@);
        }
    }
}

/// After a push applies a `CREATE` or `UPDATE`, the cursor-free
/// projection listing for the event's category contains a row keyed
/// by the event's `data_id` whose fields are the event's.
pub proof fn lemma_pushed_state_is_listed(pre: Store, post: Store, e: Event, t: Types)
    requires
        post.wf(),
        t is CREATE || t is UPDATE,
        post.states_map() == pre.states_map().insert(e.data_id@, snap_of_event(e)),
    ensures
        post.selected_states(e.data_type@, None).contains(snap_of_event(e)),
{
    let k = e.data_id@;
    assert(post.states_map().dom().contains(k));
    let w = idx_of_id(post.states@, k);
    assert(0 <= w < post.states@.len() && (post.states@[w]).id@ == k);
    lemma_row_determined(post.states@, w);
    assert(post.states@[w]@ == snap_of_event(e));
    assert(post.snaps()[w] == post.states@[w]@);
    assert(state_sel(e.data_type@, None)(post.snaps()[w]));
    post.snaps().lemma_filter_contains(state_sel(e.data_type@, None), w);
}

/// After a push applies a `DELETE`, no projection row carries the
/// event's `data_id`, whether or not one did before.
pub proof fn lemma_delete_clears_state(pre: Store, post: Store, e: Event)
    requires
        post.states_map() == pre.states_map().remove(e.data_id@),
    ensures
        !post.states_map().dom().contains(e.data_id@),
        forall|j: int|
            0 <= j < post.snaps().len() ==> (#[trigger] post.snaps()[j]).id != e.data_id@,
{
    assert forall|j: int| 0 <= j < post.snaps().len() implies (#[trigger] post.snaps()[j]).id
        != e.data_id@ by {
        assert(post.snaps()[j] == post.states@[j]@);
        if (post.states@[j]).id@ == e.data_id@ {
            assert(seq_has_id(post.states@, e.data_id@));
            assert(post.states_map().dom().contains(e.data_id@));
        }
    }
}

/// A `CREATE` followed by an `UPDATE` of the same record leaves
/// exactly one projection row for it, holding the update's fields.
pub proof fn lemma_create_then_update(s0: Store, s1: Store, s2: Store, e1: Event, e2: Event)
    requires
        s2.wf(),
        e1.data_id@ == e2.data_id@,
        s1.states_map() == s0.states_map().insert(e1.data_id@, snap_of_event(e1)),
        s2.states_map() == s1.states_map().insert(e2.data_id@, snap_of_event(e2)),
    ensures
        s2.states_map()[e2.data_id@] == snap_of_event(e2),
        exists|j: int|
            0 <= j < s2.snaps().len() && #[trigger] s2.snaps()[j] == snap_of_event(e2),
        forall|i: int, j: int|
            0 <= i < j < s2.snaps().len() ==> (#[trigger] s2.snaps()[i]).id != (
            #[trigger] s2.snaps()[j]).id,
{
    let k = e2.data_id@;
    assert(s2.states_map().dom().contains(k));
    let w = idx_of_id(s2.states@, k);
    assert(0 <= w < s2.states@.len() && (s2.states@[w]).id@ == k);
    lemma_row_determined(s2.states@, w);
    assert(s2.snaps()[w] == s2.states@[w]@);
    assert(s2.snaps()[w] == snap_of_event(e2));
    assert forall|i: int, j: int| 0 <= i < j < s2.snaps().len() implies (
    #[trigger] s2.snaps()[i]).id != (#[trigger] s2.snaps()[j]).id by {
        assert(s2.snaps()[i] == s2.states@[i]@);
        assert(s2.snaps()[j] == s2.states@[j]@);
        assert(lex_lt((s2.states@[i]).id@, (s2.states@[j]).id@));
        if (s2.states@[i]).id@ == (s2.states@[j]).id@ {
            lemma_lex_lt_irreflexive((s2.states@[i]).id@);
        }
    }
}

/// Deleting a record twice ends in the same projection as deleting
/// it once; in particular a `DELETE` of an absent record changes
/// nothing and is accepted again.
pub proof fn lemma_delete_idempotent(s0: Store, s1: Store, s2: Store, e: Event)
    requires
        s1.states_map() == s0.states_map().remove(e.data_id@),
        s2.states_map() == s1.states_map().remove(e.data_id@),
    ensures
        s2.states_map() == s1.states_map(),
{
    assert(s1.states_map().remove(e.data_id@) =~= s1.states_map());
}

/// The audit row a push appends serializes the event's kind so that
/// parsing it back yields the kind that was pushed.
pub proof fn lemma_pushed_log_row_round_trips(
    pre: Store,
    post: Store,
    state: StateSnap,
    e: Event,
    t: Types,
)
    requires
        log_gained_row(pre.log(), post.log(), state, e@, t),
    ensures
        exists|k: int|
            0 <= k < post.log().len() && spec_parse(
                (#[trigger] post.log()[k]).event_type,
            ) == Some(t),
        exists|j: int|
            0 <= j < post.selected_events(None).len() && spec_parse(
                (#[trigger] post.selected_events(None)[j]).event_type,
            ) == Some(t),
{
    let (k, row) = choose|k: int, row: EventSnap|
        0 <= k <= pre.log().len() && post.log() == #[trigger] pre.log().insert(k, row)
            && appended_row(row, state, e@, t);
    assert(post.log()[k] == row);
    lemma_codec_round_trip(t);
    assert(spec_parse(post.log()[k].event_type) == Some(t));
    assert(event_sel(None)(row));
    post.log().lemma_filter_contains(event_sel(None), k);
    let q = post.selected_events(None);
    assert(q.contains(row));
    let j = choose|j: int| 0 <= j < q.len() && q[j] == row;
    assert(spec_parse(q[j].event_type) == Some(t));
}

/// One step of cursor pagination over the projection: a page never
/// exceeds ten rows and ascends by identifier; a short page ends the
/// enumeration, and after a full page, resuming at its last row's
/// identifier yields exactly the remaining rows, so that repeated
/// calls enumerate every selected row exactly once, in order.
pub proof fn lemma_states_pages_advance(s: Store, cat: Seq<char>, cursor: Option<Seq<char>>)
    requires
        s.wf(),
    ensures
        ({
            let q = s.selected_states(cat, cursor);
            let p = page_of(q, 10);
            &&& p.len() <= 10
            &&& sorted_by(q, state_key())
            &&& q.len() <= 10 ==> p == q
            &&& q.len() > 10 ==> q == p + s.selected_states(cat, Some(p.last().id))
        }),
{
    let sel = state_sel(cat, cursor);
    let key = state_key();
    let q = s.selected_states(cat, cursor);
    let p = page_of(q, 10);
    assert(sorted_by(s.snaps(), key)) by {
        assert forall|i: int, j: int| 0 <= i < j < s.snaps().len() implies lex_lt(
            key(#[trigger] s.snaps()[i]),
            key(#[trigger] s.snaps()[j]),
        ) by {
            assert(s.snaps()[i] == s.states@[i]@);
            assert(s.snaps()[j] == s.states@[j]@);
            assert(lex_lt((s.states@[i]).id@, (s.states@[j]).id@));
        }
    }
    lemma_filter_sorted(s.snaps(), key, sel);
    if q.len() > 10 {
        let k = q[9].id;
        s.snaps().lemma_filter_pred(sel, 9);
        assert(cursor_lt(cursor, k));
        let selk = state_sel(cat, Some(k));
        assert forall|x: StateSnap| #[trigger] selk(x) == (sel(x) && above(key, k)(x)) by {
            if selk(x) {
                match cursor {
                    None => {},
                    Some(c) => {
                        crate::text::lemma_lex_lt_transitive(c, k, x.id);
                    },
                }
            }
        }
        lemma_filter_split(s.snaps(), sel, above(key, k), selk);
        lemma_sorted_filter_above(q, key, k, 9);
        assert(s.selected_states(cat, Some(k)) == q.skip(10));
        assert(q == q.take(10) + q.skip(10)) by {
            assert(q =~= q.take(10) + q.skip(10));
        }
        assert(p.last() == q[9]);
    }
}

/// The same pagination step for audit-log replay, on a log whose
/// dates are strictly ascending: with distinct dates the date cursor
/// enumerates every selected row exactly once, in order.
pub proof fn lemma_events_pages_advance(s: Store, cursor: Option<Seq<char>>)
    requires
        s.wf(),
        sorted_by(s.log(), event_key()),
    ensures
        ({
            let q = s.selected_events(cursor);
            let p = page_of(q, 10);
            &&& p.len() <= 10
            &&& sorted_by(q, event_key())
            &&& q.len() <= 10 ==> p == q
            &&& q.len() > 10 ==> q == p + s.selected_events(Some(p.last().date))
        }),
{
    let sel = event_sel(cursor);
    let key = event_key();
    let q = s.selected_events(cursor);
    let p = page_of(q, 10);
    lemma_filter_sorted(s.log(), key, sel);
    if q.len() > 10 {
        let k = q[9].date;
        s.log().lemma_filter_pred(sel, 9);
        assert(cursor_lt(cursor, k));
        let selk = event_sel(Some(k));
        assert forall|x: EventSnap| #[trigger] selk(x) == (sel(x) && above(key, k)(x)) by {
            if selk(x) {
                match cursor {
                    None => {},
                    Some(c) => {
                        crate::text::lemma_lex_lt_transitive(c, k, x.date);
                    },
                }
            }
        }
        lemma_filter_split(s.log(), sel, above(key, k), selk);
        lemma_sorted_filter_above(q, key, k, 9);
        assert(s.selected_events(Some(k)) == q.skip(10));
        assert(q == q.take(10) + q.skip(10)) by {
            assert(q =~= q.take(10) + q.skip(10));
        }
        assert(p.last() == q[9]);
    }
}

/// A host that some row mentions is answered directly, with no
/// fallback.
pub proof fn lemma_find_state_direct(s: Store, host: Seq<char>)
    requires
        s.snaps().filter(host_sel(host)).len() > 0,
    ensures
        s.find_result(host) == s.snaps().filter(host_sel(host)),
{
}

/// A host that no row mentions, with more than two dot-separated
/// labels, falls back to the host with its leftmost label stripped.
pub proof fn lemma_find_state_falls_back(s: Store, host: Seq<char>)
    requires
        s.snaps().filter(host_sel(host)).len() == 0,
        label_count(host) > 2,
    ensures
        s.find_result(host) == s.find_result(strip_label(host)),
{
}

/// A host that no row mentions, with at most two labels left, ends
/// the search empty: no further stripping is attempted.
pub proof fn lemma_find_state_stops(s: Store, host: Seq<char>)
    requires
        s.snaps().filter(host_sel(host)).len() == 0,
        label_count(host) <= 2,
    ensures
        s.find_result(host).len() == 0,
{
}

} // verus!
