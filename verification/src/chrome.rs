//! The span recorder: converts span and event callbacks into timed trace
//! entries, scopes per-thread ids to a numbered recording session, and
//! assembles each session's entries into a timeline document — a JSON array
//! of entry objects that a timeline viewer can consume.

use crate::events::RecordModel;
use crate::events::StoredRecord;
use crate::serialization::append_json_string;
use crate::serialization::append_u64;
use crate::serialization::json_string;
use crate::serialization::push_char;
use crate::serialization::u64_dec;
use vstd::prelude::*;
use vstd::string::StrSliceExecFns;
use vstd::string::StringExecFns;

verus! {

/// The static metadata of a span or event, resolved to plain values.
pub struct EventMeta {
    pub name: String,
    pub target: String,
    pub file: Option<String>,
    pub line: Option<u32>,
}

/// Resolved callsite: metadata plus the per-thread id current for this
/// session and the rendered attribute bag.
pub struct Callsite {
    pub tid: u64,
    pub name: String,
    pub target: String,
    pub file: Option<String>,
    pub line: Option<u32>,
    pub args: StoredRecord,
}

/// One entry of the timeline document. Timestamps are microseconds since the
/// recorder was created.
pub enum TraceEntry {
    /// Labels a thread row: emitted once per thread id and session.
    ThreadName { tid: u64, name: String },
    /// A span was entered.
    SpanBegin { ts: u64, callsite: Callsite, id: Option<u64> },
    /// A span was exited.
    SpanEnd { ts: u64, callsite: Callsite, id: Option<u64> },
    /// An instant event fired.
    Instant { ts: u64, callsite: Callsite },
}

// ---------------------------------------------------------------------------
// The document's JSON form
// ---------------------------------------------------------------------------
/// One `"key":value` member, with the value already rendered.
pub open spec fn member(key: Seq<char>, value: Seq<char>) -> Seq<char> {
    json_string(key) + seq![':'] + value
}

/// Parts joined by commas.
pub open spec fn join_comma(parts: Seq<Seq<char>>) -> Seq<char>
    decreases parts.len(),
{
    if parts.len() == 0 {
        Seq::empty()
    } else if parts.len() == 1 {
        parts[0]
    } else {
        join_comma(parts.drop_last()) + seq![','] + parts.last()
    }
}

/// A JSON object from rendered members.
pub open spec fn obj_json(members: Seq<Seq<char>>) -> Seq<char> {
    seq!['{'] + join_comma(members) + seq!['}']
}

/// A single character as a JSON string.
pub open spec fn quoted_char(c: char) -> Seq<char> {
    seq!['"', c, '"']
}

/// The members of a callsite's attribute object: the source location when
/// both file and line are known, then every recorded field.
pub open spec fn args_members(c: Callsite) -> Seq<Seq<char>> {
    (if c.file is Some && c.line is Some {
        seq![
            member("[file]"@, json_string(c.file->0@)),
            member("[line]"@, u64_dec(c.line->0 as nat)),
        ]
    } else {
        Seq::<Seq<char>>::empty()
    }) + c.args@.fields.map_values(|p: (Seq<char>, Seq<char>)| member(p.0, json_string(p.1)))
}

/// The members every span or event entry carries, in order: phase, process
/// id (constant), timestamp, display name, category, thread id.
pub open spec fn base_members(ph: char, ts: u64, c: Callsite) -> Seq<Seq<char>> {
    seq![
        member("ph"@, quoted_char(ph)),
        member("pid"@, u64_dec(1)),
        member("ts"@, u64_dec(ts as nat)),
        member("name"@, json_string(c.name@)),
        member("cat"@, json_string(c.target@)),
        member("tid"@, u64_dec(c.tid as nat)),
    ]
}

/// The members of a span or event entry: the base members, an id for the
/// asynchronous phases, the instant scope marker, and the attribute object
/// when it has any member.
pub open spec fn occurrence_members(
    ph: char,
    ts: u64,
    c: Callsite,
    id: Option<u64>,
    instant: bool,
) -> Seq<Seq<char>> {
    base_members(ph, ts, c) + (if id is Some {
        seq![member("id"@, u64_dec(id->0 as nat))]
    } else {
        Seq::<Seq<char>>::empty()
    }) + (if instant {
        seq![member("s"@, quoted_char('p'))]
    } else {
        Seq::<Seq<char>>::empty()
    }) + (if args_members(c).len() > 0 {
        seq![member("args"@, obj_json(args_members(c)))]
    } else {
        Seq::<Seq<char>>::empty()
    })
}

/// The phase letter of an entry: begin, end, their asynchronous variants,
/// instant, or metadata.
pub open spec fn entry_ph(e: TraceEntry) -> char {
    match e {
        TraceEntry::ThreadName { .. } => 'M',
        TraceEntry::SpanBegin { id, .. } => if id is Some {
            'b'
        } else {
            'B'
        },
        TraceEntry::SpanEnd { id, .. } => if id is Some {
            'e'
        } else {
            'E'
        },
        TraceEntry::Instant { .. } => 'i',
    }
}

/// The JSON object denoting one entry.
pub open spec fn entry_json(e: TraceEntry) -> Seq<char> {
    match e {
        TraceEntry::ThreadName { tid, name } => obj_json(
            seq![
                member("ph"@, quoted_char('M')),
                member("pid"@, u64_dec(1)),
                member("name"@, json_string("thread_name"@)),
                member("tid"@, u64_dec(tid as nat)),
                member("args"@, obj_json(seq![member("name"@, json_string(name@))])),
            ],
        ),
        TraceEntry::SpanBegin { ts, callsite, id } => obj_json(
            occurrence_members(entry_ph(e), ts, callsite, id, false),
        ),
        TraceEntry::SpanEnd { ts, callsite, id } => obj_json(
            occurrence_members(entry_ph(e), ts, callsite, id, false),
        ),
        TraceEntry::Instant { ts, callsite } => obj_json(
            occurrence_members('i', ts, callsite, None, true),
        ),
    }
}

/// The JSON objects of a sequence of entries.
pub open spec fn entries_json(entries: Seq<TraceEntry>) -> Seq<Seq<char>> {
    entries.map_values(|e: TraceEntry| entry_json(e))
}

/// The whole document: the entry objects, comma-joined, in one JSON array.
pub open spec fn document_json(entries: Seq<TraceEntry>) -> Seq<char> {
    seq!['['] + join_comma(entries_json(entries)) + seq![']']
}

proof fn lemma_join_comma_push(parts: Seq<Seq<char>>, p: Seq<char>)
    ensures
        parts.len() == 0 ==> join_comma(parts.push(p)) == p,
        parts.len() > 0 ==> join_comma(parts.push(p)) == join_comma(parts) + seq![','] + p,
{
    assert(parts.push(p).drop_last() =~= parts);
    assert(parts.push(p).last() == p);
    if parts.len() == 0 {
        assert(parts.push(p)[0] == p);
    }
}

// ---------------------------------------------------------------------------
// Rendering entries to text
// ---------------------------------------------------------------------------
fn append_key(out: &mut String, key: &str)
    ensures
        final(out)@ == old(out)@ + json_string(key@) + seq![':'],
{
    append_json_string(out, key);
    push_char(out, ':');
}

fn append_member_string(out: &mut String, key: &str, value: &str)
    ensures
        final(out)@ == old(out)@ + member(key@, json_string(value@)),
{
    append_key(out, key);
    append_json_string(out, value);
    proof {
        assert(out@ =~= old(out)@ + member(key@, json_string(value@)));
    }
}

fn append_member_u64(out: &mut String, key: &str, value: u64)
    ensures
        final(out)@ == old(out)@ + member(key@, u64_dec(value as nat)),
{
    append_key(out, key);
    append_u64(out, value);
    proof {
        assert(out@ =~= old(out)@ + member(key@, u64_dec(value as nat)));
    }
}

fn append_member_quoted_char(out: &mut String, key: &str, c: char)
    ensures
        final(out)@ == old(out)@ + member(key@, quoted_char(c)),
{
    append_key(out, key);
    push_char(out, '"');
    push_char(out, c);
    push_char(out, '"');
    proof {
        assert(out@ =~= old(out)@ + member(key@, quoted_char(c)));
    }
}

fn append_args_object(out: &mut String, c: &Callsite)
    ensures
        final(out)@ == old(out)@ + obj_json(args_members(*c)),
{
    let ghost base = out@;
    let ghost all = args_members(*c);
    push_char(out, '{');
    let ghost mut done: Seq<Seq<char>> = Seq::empty();
    let mut first = true;
    if c.line.is_some() {
        if let Some(file) = &c.file {
            let line = c.line.as_ref().unwrap();
            append_member_string(out, "[file]", file.as_str());
            proof {
                let m = member("[file]"@, json_string(c.file->0@));
                lemma_join_comma_push(done, m);
                done = done.push(m);
                assert(out@ =~= base + seq!['{'] + join_comma(done));
            }
            push_char(out, ',');
            append_member_u64(out, "[line]", *line as u64);
            first = false;
            proof {
                let m = member("[line]"@, u64_dec(c.line->0 as nat));
                lemma_join_comma_push(done, m);
                done = done.push(m);
                assert(out@ =~= base + seq!['{'] + join_comma(done));
            }
        }
    }
    let ghost loc_len = done.len();
    let n = c.args.len();
    let mut i: usize = 0;
    while i < n
        invariant
            0 <= i <= n,
            n == c.args@.fields.len(),
            all == args_members(*c),
            done.len() == loc_len + i,
            done =~= all.take(loc_len + i),
            loc_len + n == all.len(),
            first <==> done.len() == 0,
            out@ == base + seq!['{'] + join_comma(done),
        decreases n - i,
    {
        if first {
            first = false;
        } else {
            push_char(out, ',');
        }
        let pair = c.args.pair_at(i);
        append_member_string(out, pair.0.as_str(), pair.1.as_str());
        proof {
            let m = member(c.args@.fields[i as int].0, json_string(c.args@.fields[i as int].1));
            assert(all[loc_len + i] == m) by {
                assert(all[loc_len + i] == c.args@.fields.map_values(
                    |p: (Seq<char>, Seq<char>)| member(p.0, json_string(p.1)),
                )[i as int]);
            }
            lemma_join_comma_push(done, m);
            done = done.push(m);
            assert(done =~= all.take(loc_len + i + 1));
            assert(out@ =~= base + seq!['{'] + join_comma(done));
        }
        i += 1;
    }
    push_char(out, '}');
    proof {
        assert(done =~= all);
        assert(out@ =~= base + obj_json(all));
    }
}

fn append_base_members(out: &mut String, ph: char, ts: u64, c: &Callsite)
    ensures
        final(out)@ == old(out)@ + seq!['{'] + join_comma(base_members(ph, ts, *c)),
{
    let ghost base = out@;
    push_char(out, '{');
    let ghost mut done: Seq<Seq<char>> = Seq::empty();
    append_member_quoted_char(out, "ph", ph);
    proof {
        let m = member("ph"@, quoted_char(ph));
        lemma_join_comma_push(done, m);
        done = done.push(m);
        assert(out@ =~= base + seq!['{'] + join_comma(done));
    }
    push_char(out, ',');
    append_member_u64(out, "pid", 1);
    proof {
        let m = member("pid"@, u64_dec(1));
        lemma_join_comma_push(done, m);
        done = done.push(m);
        assert(out@ =~= base + seq!['{'] + join_comma(done));
    }
    push_char(out, ',');
    append_member_u64(out, "ts", ts);
    proof {
        let m = member("ts"@, u64_dec(ts as nat));
        lemma_join_comma_push(done, m);
        done = done.push(m);
        assert(out@ =~= base + seq!['{'] + join_comma(done));
    }
    push_char(out, ',');
    append_member_string(out, "name", c.name.as_str());
    proof {
        let m = member("name"@, json_string(c.name@));
        lemma_join_comma_push(done, m);
        done = done.push(m);
        assert(out@ =~= base + seq!['{'] + join_comma(done));
    }
    push_char(out, ',');
    append_member_string(out, "cat", c.target.as_str());
    proof {
        let m = member("cat"@, json_string(c.target@));
        lemma_join_comma_push(done, m);
        done = done.push(m);
        assert(out@ =~= base + seq!['{'] + join_comma(done));
    }
    push_char(out, ',');
    append_member_u64(out, "tid", c.tid);
    proof {
        let m = member("tid"@, u64_dec(c.tid as nat));
        lemma_join_comma_push(done, m);
        done = done.push(m);
        assert(done =~= base_members(ph, ts, *c));
        assert(out@ =~= base + seq!['{'] + join_comma(done));
    }
}

#[verifier::rlimit(60)]
fn append_occurrence(out: &mut String, ph: char, ts: u64, c: &Callsite, id: Option<u64>, instant: bool)
    ensures
        final(out)@ == old(out)@ + obj_json(occurrence_members(ph, ts, *c, id, instant)),
{
    let ghost base = out@;
    let ghost all = occurrence_members(ph, ts, *c, id, instant);
    append_base_members(out, ph, ts, c);
    let ghost mut done = base_members(ph, ts, *c);
    if let Some(root_id) = id {
        push_char(out, ',');
        append_member_u64(out, "id", root_id);
        proof {
            let m = member("id"@, u64_dec(id->0 as nat));
            lemma_join_comma_push(done, m);
            done = done.push(m);
            assert(out@ =~= base + seq!['{'] + join_comma(done));
        }
    }
    if instant {
        push_char(out, ',');
        append_member_quoted_char(out, "s", 'p');
        proof {
            let m = member("s"@, quoted_char('p'));
            lemma_join_comma_push(done, m);
            done = done.push(m);
            assert(out@ =~= base + seq!['{'] + join_comma(done));
        }
    }
    let has_location = c.file.is_some() && c.line.is_some();
    if has_location || c.args.len() > 0 {
        push_char(out, ',');
        append_key(out, "args");
        append_args_object(out, c);
        proof {
            assert(args_members(*c).len() > 0);
            let m = member("args"@, obj_json(args_members(*c)));
            lemma_join_comma_push(done, m);
            done = done.push(m);
            assert(out@ =~= base + seq!['{'] + join_comma(done));
        }
    } else {
        proof {
            assert(args_members(*c) =~= Seq::<Seq<char>>::empty());
        }
    }
    push_char(out, '}');
    proof {
        assert(done =~= all);
        assert(out@ =~= base + obj_json(all));
    }
}

#[verifier::rlimit(60)]
fn append_thread_name(out: &mut String, tid: u64, name: &String)
    ensures
        final(out)@ == old(out)@ + entry_json(TraceEntry::ThreadName { tid, name: *name }),
{
    let ghost e = TraceEntry::ThreadName { tid, name: *name };
    let ghost base = out@;
    let ghost mut done: Seq<Seq<char>> = Seq::empty();
    push_char(out, '{');
    append_member_quoted_char(out, "ph", 'M');
    proof {
        let m = member("ph"@, quoted_char('M'));
        lemma_join_comma_push(done, m);
        done = done.push(m);
        assert(out@ =~= base + seq!['{'] + join_comma(done));
    }
    push_char(out, ',');
    append_member_u64(out, "pid", 1);
    proof {
        let m = member("pid"@, u64_dec(1));
        lemma_join_comma_push(done, m);
        done = done.push(m);
        assert(out@ =~= base + seq!['{'] + join_comma(done));
    }
    push_char(out, ',');
    append_member_string(out, "name", "thread_name");
    proof {
        let m = member("name"@, json_string("thread_name"@));
        lemma_join_comma_push(done, m);
        done = done.push(m);
        assert(out@ =~= base + seq!['{'] + join_comma(done));
    }
    push_char(out, ',');
    append_member_u64(out, "tid", tid);
    proof {
        let m = member("tid"@, u64_dec(tid as nat));
        lemma_join_comma_push(done, m);
        done = done.push(m);
        assert(out@ =~= base + seq!['{'] + join_comma(done));
    }
    push_char(out, ',');
    append_key(out, "args");
    push_char(out, '{');
    append_member_string(out, "name", name.as_str());
    push_char(out, '}');
    proof {
        let inner = seq![member("name"@, json_string(name@))];
        assert(join_comma(inner) == inner[0]);
        let m = member("args"@, obj_json(inner));
        lemma_join_comma_push(done, m);
        done = done.push(m);
        assert(out@ =~= base + seq!['{'] + join_comma(done));
    }
    push_char(out, '}');
    proof {
        assert(done =~= seq![
    member("ph"@, quoted_char('M')),
    member("pid"@, u64_dec(1)),
    member("name"@, json_string("thread_name"@)),
    member("tid"@, u64_dec(tid as nat)),
    member("args"@, obj_json(seq![member("name"@, json_string(name@))])),
        ]);
        assert(out@ =~= base + entry_json(e));
    }
}

/// Append the JSON object denoting `e` to `out`.
fn append_entry(out: &mut String, e: &TraceEntry)
    ensures
        final(out)@ == old(out)@ + entry_json(*e),
{
    match e {
        TraceEntry::ThreadName { tid, name } => {
            append_thread_name(out, *tid, name);
        },
        TraceEntry::SpanBegin { ts, callsite, id } => {
            let ph = if id.is_some() {
                'b'
            } else {
                'B'
            };
            append_occurrence(out, ph, *ts, callsite, *id, false);
        },
        TraceEntry::SpanEnd { ts, callsite, id } => {
            let ph = if id.is_some() {
                'e'
            } else {
                'E'
            };
            append_occurrence(out, ph, *ts, callsite, *id, false);
        },
        TraceEntry::Instant { ts, callsite } => {
            append_occurrence(out, 'i', *ts, callsite, None, true);
        },
    }
}

/// Render a session's entries as the timeline document: one JSON array with
/// one object per entry, in order. With no entries the document is the empty
/// array.
pub fn render_document(entries: &Vec<TraceEntry>) -> (doc: String)
    ensures
        doc@ == document_json(entries@),
{
    let mut out = String::new();
    push_char(&mut out, '[');
    let n = entries.len();
    let mut i: usize = 0;
    while i < n
        invariant
            0 <= i <= n,
            n == entries@.len(),
            out@ == seq!['['] + join_comma(entries_json(entries@.take(i as int))),
        decreases n - i,
    {
        if i > 0 {
            push_char(&mut out, ',');
        }
        append_entry(&mut out, &entries[i]);
        proof {
            let prefix = entries_json(entries@.take(i as int));
            let m = entry_json(entries@[i as int]);
            lemma_join_comma_push(prefix, m);
            assert(entries_json(entries@.take(i + 1)) =~= prefix.push(m));
            assert(out@ =~= seq!['['] + join_comma(entries_json(entries@.take(i + 1))));
        }
        i += 1;
    }
    push_char(&mut out, ']');
    proof {
        assert(entries@.take(n as int) =~= entries@);
        assert(out@ =~= document_json(entries@));
    }
    out
}


// ---------------------------------------------------------------------------
// The aggregation worker
// ---------------------------------------------------------------------------
/// A message from an instrumented thread to the aggregation worker.
pub enum Message {
    /// A span was entered at the given timestamp.
    Enter(u64, Callsite, Option<u64>),
    /// An instant event fired.
    Event(u64, Callsite),
    /// A span was exited.
    Exit(u64, Callsite, Option<u64>),
    /// A thread uses a fresh id and wants its row labeled.
    NewThread(u64, String),
    /// Begin a new recording session.
    Start,
    /// Finalize the current document.
    Stop,
}

/// The trace entry a non-control message turns into.
pub open spec fn entry_of_message(msg: Message) -> Option<TraceEntry> {
    match msg {
        Message::Enter(ts, callsite, id) => Some(TraceEntry::SpanBegin { ts, callsite, id }),
        Message::Event(ts, callsite) => Some(TraceEntry::Instant { ts, callsite }),
        Message::Exit(ts, callsite, id) => Some(TraceEntry::SpanEnd { ts, callsite, id }),
        Message::NewThread(tid, name) => Some(TraceEntry::ThreadName { tid, name }),
        Message::Start => None,
        Message::Stop => None,
    }
}

/// The aggregation worker's state: whether a session is being recorded, and
/// the entries assembled so far. It handles messages strictly in arrival
/// order, so the document lists entries in the order their callbacks fired.
pub struct TraceWorker {
    running: bool,
    entries: Vec<TraceEntry>,
}

impl TraceWorker {
    /// Whether a session is currently recorded.
    pub closed spec fn running(self) -> bool {
        self.running
    }

    /// The entries assembled since the session started.
    pub closed spec fn entries(self) -> Seq<TraceEntry> {
        self.entries@
    }

    /// A worker with no session and no entries.
    pub fn new() -> (worker: Self)
        ensures
            !worker.running(),
            worker.entries().len() == 0,
    {
        TraceWorker { running: false, entries: Vec::new() }
    }

    /// Handle one message, in arrival order. `Start` clears the assembly
    /// buffer and begins recording; `Stop` finalizes and returns the
    /// document; any other message becomes the next entry while recording
    /// and is ignored while idle.
    pub fn handle_message(&mut self, msg: Message) -> (doc: Option<String>)
        ensures
            msg is Start ==> final(self).running() && final(self).entries().len() == 0 && doc
                is None,
            msg is Stop ==> !final(self).running() && final(self).entries() == old(self).entries()
                && doc is Some && doc->0@ == document_json(old(self).entries()),
            !(msg is Start) && !(msg is Stop) && old(self).running() ==> final(self).running()
                && final(self).entries() == old(self).entries().push(entry_of_message(msg)->0)
                && doc is None,
            !(msg is Start) && !(msg is Stop) && !old(self).running() ==> *final(self) == *old(self)
                && doc is None,
    {
        match msg {
            Message::Start => {
                self.entries.clear();
                self.running = true;
                None
            },
            Message::Stop => {
                self.running = false;
                Some(render_document(&self.entries))
            },
            Message::Enter(ts, callsite, id) => {
                if self.running {
                    self.entries.push(TraceEntry::SpanBegin { ts, callsite, id });
                }
                None
            },
            Message::Event(ts, callsite) => {
                if self.running {
                    self.entries.push(TraceEntry::Instant { ts, callsite });
                }
                None
            },
            Message::Exit(ts, callsite, id) => {
                if self.running {
                    self.entries.push(TraceEntry::SpanEnd { ts, callsite, id });
                }
                None
            },
            Message::NewThread(tid, name) => {
                if self.running {
                    self.entries.push(TraceEntry::ThreadName { tid, name });
                }
                None
            },
        }
    }
}

// ---------------------------------------------------------------------------
// The layer: session-scoped thread ids and callsite resolution
// ---------------------------------------------------------------------------
/// One thread's session-scoped bookkeeping: the thread's identity token, the
/// session its id was minted for, and that id.
#[derive(Clone, Copy, PartialEq, Eq, Structural, Debug)]
pub struct ThreadSlot {
    pub token: u64,
    pub session: u64,
    pub tid: u64,
}

/// The tid an entry refers to.
pub open spec fn entry_tid(e: TraceEntry) -> u64 {
    match e {
        TraceEntry::ThreadName { tid, .. } => tid,
        TraceEntry::SpanBegin { callsite, .. } => callsite.tid,
        TraceEntry::SpanEnd { callsite, .. } => callsite.tid,
        TraceEntry::Instant { callsite, .. } => callsite.tid,
    }
}

/// Whether an entry labels a thread row.
pub open spec fn is_thread_name(e: TraceEntry) -> bool {
    e is ThreadName
}

/// Whether `entries` holds a thread-name entry for `tid`.
pub open spec fn announced(entries: Seq<TraceEntry>, tid: u64) -> bool {
    exists|j: int|
        0 <= j < entries.len() && is_thread_name(#[trigger] entries[j]) && entry_tid(entries[j])
            == tid
}

/// Whether `entries` holds a thread-name entry for `tid` before position `i`.
pub open spec fn announced_before(entries: Seq<TraceEntry>, tid: u64, i: int) -> bool {
    exists|j: int|
        0 <= j < i && is_thread_name(#[trigger] entries[j]) && entry_tid(entries[j]) == tid
}

/// The recording layer: owns the aggregation worker, the session counter,
/// and the explicit per-thread id registry that replaces hidden thread-local
/// caches.
pub struct ChromeLayer {
    worker: TraceWorker,
    session: u64,
    max_tid: u64,
    threads: Vec<ThreadSlot>,
    include_args: bool,
    include_locations: bool,
}

impl ChromeLayer {
    /// The current session number; incremented on every start.
    pub closed spec fn session(self) -> u64 {
        self.session
    }

    /// The next thread id to mint; ids are never reused.
    pub closed spec fn max_tid(self) -> u64 {
        self.max_tid
    }

    /// The per-thread registry.
    pub closed spec fn threads(self) -> Seq<ThreadSlot> {
        self.threads@
    }

    /// Whether a session is currently recorded.
    pub closed spec fn recording(self) -> bool {
        self.worker.running()
    }

    /// The entries assembled for the current session.
    pub closed spec fn entries(self) -> Seq<TraceEntry> {
        self.worker.entries()
    }

    /// Whether registry slot `k` holds `token`'s id for the current session.
    pub open spec fn slot_current(self, k: int, token: u64) -> bool {
        0 <= k < self.threads().len() && self.threads()[k].token == token && self.threads()[k].session
            == self.session()
    }

    /// Whether `token` already has an id for the current session.
    pub open spec fn token_has_current(self, token: u64) -> bool {
        exists|k: int| self.slot_current(k, token)
    }

    /// The id the next lookup for `token` returns: its current slot's id, or
    /// a freshly minted one.
    pub open spec fn session_tid(self, token: u64) -> u64 {
        if self.token_has_current(token) {
            self.threads()[choose|k: int| self.slot_current(k, token)].tid
        } else {
            self.max_tid()
        }
    }

    /// Whether `tid` was minted for the current session.
    pub open spec fn tid_in_session(self, tid: u64) -> bool {
        exists|k: int|
            0 <= k < self.threads().len() && (#[trigger] self.threads()[k]).session
                == self.session() && self.threads()[k].tid == tid
    }

    /// The registry's own shape: distinct tokens, and distinct thread ids
    /// all below the mint counter.
    pub open spec fn registry_wf(self) -> bool {
        &&& forall|i: int, j: int|
            0 <= i < j < self.threads().len() ==> (#[trigger] self.threads()[i]).token != (
            #[trigger] self.threads()[j]).token
        &&& forall|i: int, j: int|
            0 <= i < j < self.threads().len() ==> (#[trigger] self.threads()[i]).tid != (
            #[trigger] self.threads()[j]).tid
        &&& forall|i: int| 0 <= i < self.threads().len() ==> (#[trigger] self.threads()[i]).tid < self.max_tid()
        &&& forall|i: int|
            0 <= i < self.threads().len() ==> (#[trigger] self.threads()[i]).session <= self.session()
    }

    /// The buffer's shape: a thread row is labeled at most once; every entry's
    /// id was labeled earlier in the same buffer; every id in the buffer is
    /// below the mint counter and belongs to a slot of the current session.
    pub open spec fn entries_wf(self) -> bool {
        &&& forall|i: int, j: int|
            0 <= i < j < self.entries().len() && is_thread_name(#[trigger] self.entries()[i])
                && is_thread_name(#[trigger] self.entries()[j]) ==> entry_tid(self.entries()[i])
                != entry_tid(self.entries()[j])
        &&& forall|i: int|
            0 <= i < self.entries().len() && !is_thread_name(#[trigger] self.entries()[i])
                ==> announced_before(self.entries(), entry_tid(self.entries()[i]), i)
        &&& forall|i: int|
            0 <= i < self.entries().len() ==> entry_tid(#[trigger] self.entries()[i])
                < self.max_tid()
        &&& forall|i: int|
            0 <= i < self.entries().len() ==> self.tid_in_session(
                entry_tid(#[trigger] self.entries()[i]),
            )
    }

    /// While recording, every id of the current session is labeled in the
    /// buffer, except possibly `pending`, whose label is being emitted.
    pub open spec fn announces_except(self, pending: u64) -> bool {
        self.recording() ==> forall|k: int|
            0 <= k < self.threads().len() && (#[trigger] self.threads()[k]).session
                == self.session() ==> announced(self.entries(), self.threads()[k].tid)
                || self.threads()[k].tid == pending
    }

    /// While recording, every id of the current session is labeled in the
    /// buffer.
    pub open spec fn announces_all(self) -> bool {
        self.recording() ==> forall|k: int|
            0 <= k < self.threads().len() && (#[trigger] self.threads()[k]).session
                == self.session() ==> announced(self.entries(), self.threads()[k].tid)
    }

    /// The layer's invariant, established by `new` and preserved by every
    /// operation.
    pub open spec fn wf(self) -> bool {
        &&& self.registry_wf()
        &&& self.entries_wf()
        &&& self.announces_all()
    }

    /// A fresh layer: no session yet, no ids minted, location and argument
    /// capture switched on.
    pub fn new() -> (layer: Self)
        ensures
            layer.wf(),
            !layer.recording(),
            layer.session() == 0,
            layer.max_tid() == 0,
            layer.threads().len() == 0,
            layer.entries().len() == 0,
            layer.args_included(),
            layer.locations_included(),
    {
        ChromeLayer {
            worker: TraceWorker::new(),
            session: 0,
            max_tid: 0,
            threads: Vec::new(),
            include_args: true,
            include_locations: true,
        }
    }

    /// Whether argument capture is switched on.
    pub closed spec fn args_included(self) -> bool {
        self.include_args
    }

    /// Whether source locations are captured.
    pub closed spec fn locations_included(self) -> bool {
        self.include_locations
    }

    /// Whether a session is currently recorded.
    pub fn is_recording(&self) -> (recording: bool)
        ensures
            recording == self.recording(),
    {
        self.worker.running
    }

    /// The current session number.
    pub fn current_session(&self) -> (session: u64)
        ensures
            session == self.session(),
    {
        self.session
    }

    /// How many thread ids have been minted so far.
    pub fn minted_thread_ids(&self) -> (minted: u64)
        ensures
            minted == self.max_tid(),
    {
        self.max_tid
    }

    /// Look up or mint the calling thread's id for the current session: a
    /// thread keeps its id within one session, and is treated as newly
    /// joining — with a fresh id — the first time it appears in a session.
    fn get_tid(&mut self, token: u64) -> (r: (u64, bool))
        requires
            old(self).wf(),
            old(self).max_tid() < u64::MAX,
        ensures
            final(self).registry_wf(),
            final(self).entries_wf(),
            final(self).announces_except(r.0),
            final(self).session() == old(self).session(),
            final(self).entries() == old(self).entries(),
            final(self).recording() == old(self).recording(),
            final(self).args_included() == old(self).args_included(),
            final(self).locations_included() == old(self).locations_included(),
            r.1 == !old(self).token_has_current(token),
            r.0 == old(self).session_tid(token),
            old(self).token_has_current(token) ==> *final(self) == *old(self),
            !old(self).token_has_current(token) ==> final(self).max_tid() == old(self).max_tid()
                + 1 && r.0 == old(self).max_tid(),
            forall|k: int|
                0 <= k < old(self).threads().len() && (#[trigger] old(self).threads()[k]).session
                    == old(self).session() ==> k < final(self).threads().len()
                    && final(self).threads()[k] == old(self).threads()[k],
            exists|k: int|
                final(self).slot_current(k, token) && (#[trigger] final(self).threads()[k]).tid
                    == r.0,
            final(self).token_has_current(token),
            final(self).session_tid(token) == r.0,
            final(self).max_tid() <= old(self).max_tid() + 1,
    {
        let n = self.threads.len();
        let mut i: usize = 0;
        while i < n
            invariant
                0 <= i <= n,
                *self == *old(self),
                old(self).wf(),
                old(self).max_tid() < u64::MAX,
                n == self.threads().len(),
                forall|k: int| 0 <= k < i ==> (#[trigger] self.threads()[k]).token != token,
            decreases n - i,
        {
            let slot = self.threads[i];
            if slot.token == token {
                proof {
                    assert forall|k: int|
                        0 <= k < self.threads().len() && k != i as int implies (
                    #[trigger] self.threads()[k]).token != token by {
                        if k < i as int {
                        } else {
                            assert(self.threads()[i as int].token != self.threads()[k].token);
                        }
                    }
                }
                if slot.session == self.session {
                    proof {
                        assert(self.slot_current(i as int, token));
                        assert(self.token_has_current(token));
                        let k = choose|k: int| self.slot_current(k, token);
                        assert(k == i as int);
                    }
                    return (slot.tid, false);
                } else {
                    proof {
                        assert forall|k: int| !self.slot_current(k, token) by {
                            if 0 <= k < self.threads().len() {
                                if k == i as int {
                                    assert(self.threads()[k].session != self.session());
                                }
                            }
                        }
                        assert(!self.token_has_current(token));
                    }
                    let tid = self.max_tid;
                    self.max_tid = self.max_tid + 1;
                    let _stale = self.threads.remove(i);
                    self.threads.insert(i, ThreadSlot { token, session: self.session, tid });
                    proof {
                        assert(self.threads() =~= old(self).threads().update(
                            i as int,
                            ThreadSlot { token, session: old(self).session(), tid },
                        ));
                        assert(self.slot_current(i as int, token));
                        assert forall|a: int|
                            0 <= a < self.entries().len() implies self.tid_in_session(
                            entry_tid(#[trigger] self.entries()[a]),
                        ) by {
                            let tid_a = entry_tid(old(self).entries()[a]);
                            assert(old(self).tid_in_session(tid_a));
                            let k = choose|k: int|
                                0 <= k < old(self).threads().len() && (#[trigger] old(
                                    self,
                                ).threads()[k]).session == old(self).session() && old(
                                    self,
                                ).threads()[k].tid == tid_a;
                            assert(old(self).threads()[k].session == old(self).session());
                            assert(k != i as int);
                            assert(self.threads()[k] == old(self).threads()[k]);
                        }
                        assert(self.entries() == old(self).entries());
                        assert forall|a: int, b: int|
                            0 <= a < b < self.entries().len() && is_thread_name(
                                #[trigger] self.entries()[a],
                            ) && is_thread_name(#[trigger] self.entries()[b]) implies entry_tid(
                            self.entries()[a],
                        ) != entry_tid(self.entries()[b]) by {
                            assert(old(self).entries()[a] == self.entries()[a]);
                            assert(old(self).entries()[b] == self.entries()[b]);
                        }
                        assert forall|a: int|
                            0 <= a < self.entries().len() && !is_thread_name(
                                #[trigger] self.entries()[a],
                            ) implies announced_before(
                            self.entries(),
                            entry_tid(self.entries()[a]),
                            a,
                        ) by {
                            assert(old(self).entries()[a] == self.entries()[a]);
                        }
                        assert forall|a: int|
                            0 <= a < self.entries().len() implies entry_tid(
                            #[trigger] self.entries()[a],
                        ) < self.max_tid() by {
                            assert(old(self).entries()[a] == self.entries()[a]);
                            assert(entry_tid(old(self).entries()[a]) < old(self).max_tid());
                        }
                        assert(self.entries_wf());
                    }
                    return (tid, true);
                }
            }
            i += 1;
        }
        proof {
            assert forall|k: int| !self.slot_current(k, token) by {
                if 0 <= k < self.threads().len() {
                    assert(self.threads()[k].token != token);
                }
            }
            assert(!self.token_has_current(token));
        }
        let tid = self.max_tid;
        self.max_tid = self.max_tid + 1;
        self.threads.push(ThreadSlot { token, session: self.session, tid });
        proof {
            let m = self.threads().len() - 1;
            assert(self.slot_current(m, token));
            assert forall|a: int|
                0 <= a < self.entries().len() implies self.tid_in_session(
                entry_tid(#[trigger] self.entries()[a]),
            ) by {
                let tid_a = entry_tid(old(self).entries()[a]);
                assert(old(self).tid_in_session(tid_a));
                let k = choose|k: int|
                    0 <= k < old(self).threads().len() && (#[trigger] old(self).threads()[k]).session
                        == old(self).session() && old(self).threads()[k].tid == tid_a;
                assert(self.threads()[k] == old(self).threads()[k]);
            }
        }
        (tid, true)
    }

    /// Resolve one span's or event's callsite under the current session:
    /// look up or mint the calling thread's id, and when the id is fresh,
    /// label its row first, so every id in a document is introduced before it
    /// is used.
    pub fn get_callsite(
        &mut self,
        meta: &EventMeta,
        args: StoredRecord,
        thread_token: u64,
        thread_name: Option<String>,
    ) -> (callsite: Callsite)
        requires
            old(self).wf(),
            old(self).max_tid() < u64::MAX,
        ensures
            final(self).wf(),
            final(self).session() == old(self).session(),
            final(self).recording() == old(self).recording(),
            final(self).args_included() == old(self).args_included(),
            final(self).locations_included() == old(self).locations_included(),
            callsite_resolved(*old(self), callsite, *meta, args@, thread_token),
            exists|k: int|
                final(self).slot_current(k, thread_token) && (#[trigger] final(self).threads()[
                    k
                ]).tid == callsite.tid,
            final(self).token_has_current(thread_token),
            final(self).session_tid(thread_token) == old(self).session_tid(thread_token),
            final(self).max_tid() <= old(self).max_tid() + 1,
            old(self).token_has_current(thread_token) ==> final(self).threads() == old(
                self,
            ).threads() && final(self).max_tid() == old(self).max_tid(),
            forall|k: int|
                0 <= k < old(self).threads().len() && (#[trigger] old(self).threads()[k]).session
                    == old(self).session() ==> k < final(self).threads().len()
                    && final(self).threads()[k] == old(self).threads()[k],
            old(self).recording() && !old(self).token_has_current(thread_token)
                ==> final(self).entries().len() == old(self).entries().len() + 1
                && final(self).entries().drop_last() == old(self).entries()
                && is_thread_name(final(self).entries().last())
                && entry_tid(final(self).entries().last()) == callsite.tid
                && thread_name_label(final(self).entries().last()) == thread_label(thread_name, callsite.tid),
            !(old(self).recording() && !old(self).token_has_current(thread_token))
                ==> final(self).entries() == old(self).entries(),
    {
        let (tid, is_new) = self.get_tid(thread_token);
        let ghost after_lookup = *self;
        if is_new {
            let label = match thread_name {
                Some(name) => name,
                None => crate::serialization::format_u64(tid),
            };
            let ghost mid = *self;
            let _ = self.worker.handle_message(Message::NewThread(tid, label));
            proof {
                if mid.recording() {
                    let pushed = self.entries().last();
                    assert(self.entries() == mid.entries().push(
                        entry_of_message(Message::NewThread(tid, label))->0,
                    ));
                    assert(self.entries().drop_last() =~= mid.entries());
                    assert forall|a: int, b: int|
                        0 <= a < b < self.entries().len() && is_thread_name(
                            #[trigger] self.entries()[a],
                        ) && is_thread_name(#[trigger] self.entries()[b]) implies entry_tid(
                        self.entries()[a],
                    ) != entry_tid(self.entries()[b]) by {
                        if b < self.entries().len() - 1 {
                            assert(self.entries()[a] == old(self).entries()[a]);
                            assert(self.entries()[b] == old(self).entries()[b]);
                        } else {
                            assert(self.entries()[a] == old(self).entries()[a]);
                            assert(entry_tid(old(self).entries()[a]) < old(self).max_tid());
                        }
                    }
                    assert forall|a: int|
                        0 <= a < self.entries().len() && !is_thread_name(
                            #[trigger] self.entries()[a],
                        ) implies announced_before(
                        self.entries(),
                        entry_tid(self.entries()[a]),
                        a,
                    ) by {
                        assert(self.entries()[a] == old(self).entries()[a]);
                        assert(announced_before(old(self).entries(), entry_tid(old(self).entries()[a]), a));
                        let j = choose|j: int|
                            0 <= j < a && is_thread_name(#[trigger] old(self).entries()[j])
                                && entry_tid(old(self).entries()[j]) == entry_tid(
                                old(self).entries()[a],
                            );
                        assert(self.entries()[j] == old(self).entries()[j]);
                    }
                    assert forall|a: int|
                        0 <= a < self.entries().len() implies self.tid_in_session(
                        entry_tid(#[trigger] self.entries()[a]),
                    ) by {
                        assert(self.threads() == mid.threads());
                        assert(self.session() == mid.session());
                        if a < self.entries().len() - 1 {
                            assert(self.entries()[a] == old(self).entries()[a]);
                            assert(mid.tid_in_session(entry_tid(mid.entries()[a])));
                            let kk = choose|kk: int|
                                0 <= kk < mid.threads().len() && (#[trigger] mid.threads()[
                                    kk
                                ]).session == mid.session() && mid.threads()[kk].tid == entry_tid(
                                    mid.entries()[a],
                                );
                            assert(self.threads()[kk] == mid.threads()[kk]);
                        } else {
                            let kk = choose|kk: int|
                                mid.slot_current(kk, thread_token) && (#[trigger] mid.threads()[
                                    kk
                                ]).tid == tid;
                            assert(self.threads()[kk] == mid.threads()[kk]);
                            assert(self.slot_current(kk, thread_token));
                        }
                    }
                    assert forall|k: int|
                        0 <= k < self.threads().len() && (#[trigger] self.threads()[k]).session
                            == self.session() implies announced(
                        self.entries(),
                        self.threads()[k].tid,
                    ) by {
                        if self.threads()[k].tid == tid {
                            assert(is_thread_name(self.entries().last()));
                            assert(entry_tid(self.entries()[self.entries().len() - 1]) == tid);
                        } else {
                            assert(announced(mid.entries(), mid.threads()[k].tid));
                            let j = choose|j: int|
                                0 <= j < mid.entries().len() && is_thread_name(
                                    #[trigger] mid.entries()[j],
                                ) && entry_tid(mid.entries()[j]) == mid.threads()[k].tid;
                            assert(self.entries()[j] == mid.entries()[j]);
                        }
                    }
                    assert(self.wf());
                } else {
                    assert(self.entries() == mid.entries());
                    assert(self.wf());
                }
            }
        } else {
            proof {
                if self.recording() {
                    assert forall|k: int|
                        0 <= k < self.threads().len() && (#[trigger] self.threads()[k]).session
                            == self.session() implies announced(
                        self.entries(),
                        self.threads()[k].tid,
                    ) by {
                        assert(announced(old(self).entries(), old(self).threads()[k].tid));
                    }
                }
                assert(self.wf());
            }
        }
        proof {
            assert(self.threads() == after_lookup.threads());
            assert(self.session() == after_lookup.session());
            assert(self.max_tid() == after_lookup.max_tid());
            let k = choose|k: int|
                after_lookup.slot_current(k, thread_token) && (#[trigger] after_lookup.threads()[
                    k
                ]).tid == tid;
            assert(self.slot_current(k, thread_token));
            self.lemma_session_tid_from_slot(thread_token, k);
            assert(self.session_tid(thread_token) == tid);
        }
        self.build_callsite(meta, args, tid)
    }

    /// Assemble the callsite value itself, honoring the capture switches.
    fn build_callsite(&self, meta: &EventMeta, args: StoredRecord, tid: u64) -> (callsite:
        Callsite)
        ensures
            callsite.tid == tid,
            callsite.name@ == meta.name@,
            callsite.target@ == meta.target@,
            self.locations_included() ==> (callsite.file is Some <==> meta.file is Some) && (
            meta.file is Some ==> callsite.file->0@ == meta.file->0@) && callsite.line == meta.line,
            !self.locations_included() ==> callsite.file is None && callsite.line is None,
            self.args_included() ==> callsite.args@ == args@,
            !self.args_included() ==> callsite.args@.fields.len() == 0,
    {
        let name = meta.name.clone();
        let target = meta.target.clone();
        let file: Option<String>;
        let line: Option<u32>;
        if self.include_locations {
            file = match &meta.file {
                Some(f) => Some(f.clone()),
                None => None,
            };
            line = meta.line;
        } else {
            file = None;
            line = None;
        }
        let args_used = if self.include_args {
            args
        } else {
            StoredRecord::new()
        };
        Callsite { tid, name, target, file, line, args: args_used }
    }
}

impl ChromeLayer {
    /// With tokens distinct, the slot holding `token`'s id for the current
    /// session determines `session_tid`.
    proof fn lemma_session_tid_from_slot(self, token: u64, k: int)
        requires
            self.registry_wf(),
            self.slot_current(k, token),
        ensures
            self.token_has_current(token),
            self.session_tid(token) == self.threads()[k].tid,
    {
        assert(self.token_has_current(token));
        let kk = choose|kk: int| self.slot_current(kk, token);
        if kk != k {
            assert(self.threads()[kk].token == self.threads()[k].token);
            assert(false);
        }
    }
}

/// How a resolved callsite relates to the metadata, arguments, and thread it
/// came from, in the state the layer was in before the callback.
pub open spec fn callsite_resolved(
    layer: ChromeLayer,
    cs: Callsite,
    meta: EventMeta,
    args: RecordModel,
    token: u64,
) -> bool {
    &&& cs.tid == layer.session_tid(token)
    &&& cs.name@ == meta.name@
    &&& cs.target@ == meta.target@
    &&& layer.locations_included() ==> (cs.file is Some <==> meta.file is Some) && (meta.file
        is Some ==> cs.file->0@ == meta.file->0@) && cs.line == meta.line
    &&& !layer.locations_included() ==> cs.file is None && cs.line is None
    &&& layer.args_included() ==> cs.args@ == args
    &&& !layer.args_included() ==> cs.args@.fields.len() == 0
}

/// The label a thread row gets: the thread's own name, or its id in decimal
/// when the thread is unnamed.
pub open spec fn thread_label(thread_name: Option<String>, tid: u64) -> Seq<char> {
    if thread_name is Some {
        thread_name->0@
    } else {
        u64_dec(tid as nat)
    }
}

/// The name a thread-row label entry carries.
pub open spec fn thread_name_label(e: TraceEntry) -> Seq<char> {
    match e {
        TraceEntry::ThreadName { name, .. } => name@,
        _ => Seq::empty(),
    }
}


/// Whether `e` is the span-begin entry for this callback.
pub open spec fn begin_entry_matches(
    e: TraceEntry,
    ts: u64,
    layer: ChromeLayer,
    meta: EventMeta,
    args: RecordModel,
    token: u64,
) -> bool {
    match e {
        TraceEntry::SpanBegin { ts: ets, callsite, id } => ets == ts && id is None
            && callsite_resolved(layer, callsite, meta, args, token),
        _ => false,
    }
}

/// Whether `e` is the span-end entry for this callback.
pub open spec fn end_entry_matches(
    e: TraceEntry,
    ts: u64,
    layer: ChromeLayer,
    meta: EventMeta,
    args: RecordModel,
    token: u64,
) -> bool {
    match e {
        TraceEntry::SpanEnd { ts: ets, callsite, id } => ets == ts && id is None
            && callsite_resolved(layer, callsite, meta, args, token),
        _ => false,
    }
}

/// Whether `e` is the instant entry for this callback.
pub open spec fn instant_entry_matches(
    e: TraceEntry,
    ts: u64,
    layer: ChromeLayer,
    meta: EventMeta,
    args: RecordModel,
    token: u64,
) -> bool {
    match e {
        TraceEntry::Instant { ts: ets, callsite } => ets == ts && callsite_resolved(
            layer,
            callsite,
            meta,
            args,
            token,
        ),
        _ => false,
    }
}

impl ChromeLayer {
    /// What every observation callback guarantees about the buffer: while
    /// idle nothing is recorded; while recording, the buffer grows by the
    /// observed entry, preceded by a thread-row label when the thread is new
    /// to the session.
    pub open spec fn observed(
        self,
        layer_new: ChromeLayer,
        thread_token: u64,
        thread_name: Option<String>,
        last: TraceEntry,
    ) -> bool {
        &&& layer_new.session() == self.session()
        &&& layer_new.recording() == self.recording()
        &&& (!self.recording() ==> layer_new.entries() == self.entries())
        &&& (self.recording() && self.token_has_current(thread_token) ==> layer_new.entries()
            == self.entries().push(last))
        &&& (self.recording() && !self.token_has_current(thread_token) ==> {
            &&& layer_new.entries().len() == self.entries().len() + 2
            &&& layer_new.entries().drop_last().drop_last() == self.entries()
            &&& is_thread_name(layer_new.entries()[self.entries().len() as int])
            &&& entry_tid(layer_new.entries()[self.entries().len() as int]) == self.session_tid(
                thread_token,
            )
            &&& thread_name_label(layer_new.entries()[self.entries().len() as int])
                == thread_label(thread_name, self.session_tid(thread_token))
            &&& layer_new.entries().last() == last
        })
    }

    /// A span was entered: record its begin entry for the current session.
    pub fn on_enter(
        &mut self,
        ts: u64,
        meta: &EventMeta,
        args: StoredRecord,
        thread_token: u64,
        thread_name: Option<String>,
    )
        requires
            old(self).wf(),
            old(self).max_tid() < u64::MAX,
        ensures
            final(self).wf(),
            exists|last: TraceEntry|
                old(self).observed(*final(self), thread_token, thread_name, last)
                    && begin_entry_matches(last, ts, *old(self), *meta, args@, thread_token),
            final(self).token_has_current(thread_token),
            final(self).session_tid(thread_token) == old(self).session_tid(thread_token),
            final(self).max_tid() <= old(self).max_tid() + 1,
            old(self).token_has_current(thread_token) ==> final(self).threads() == old(
                self,
            ).threads() && final(self).max_tid() == old(self).max_tid(),
            forall|k: int|
                0 <= k < old(self).threads().len() && (#[trigger] old(self).threads()[k]).session
                    == old(self).session() ==> k < final(self).threads().len()
                    && final(self).threads()[k] == old(self).threads()[k],
    {
        let ghost pre = *self;
        let callsite = self.get_callsite(meta, args, thread_token, thread_name);
        let ghost cs = callsite;
        let ghost mid = *self;
        let _ = self.worker.handle_message(Message::Enter(ts, callsite, None));
        proof {
            let last = TraceEntry::SpanBegin { ts, callsite: cs, id: None };
            self.lemma_occurrence_recorded(pre, mid, last);
            if pre.recording() {
                assert(self.entries() == mid.entries().push(last));
                assert(self.entries().drop_last() =~= mid.entries());
                if !pre.token_has_current(thread_token) {
                    assert(self.entries()[pre.entries().len() as int] == mid.entries()[pre.entries().len() as int]);
                    assert(mid.entries()[pre.entries().len() as int] == mid.entries().last());
                    assert(self.entries().drop_last().drop_last() == pre.entries());
                }
            }
            assert(self.threads() == mid.threads());
            assert(self.session() == mid.session());
            assert(self.max_tid() == mid.max_tid());
            let kw = choose|kw: int|
                mid.slot_current(kw, thread_token) && (#[trigger] mid.threads()[kw]).tid
                    == cs.tid;
            assert(self.slot_current(kw, thread_token));
            self.lemma_session_tid_from_slot(thread_token, kw);
            assert(begin_entry_matches(last, ts, pre, *meta, args@, thread_token));
            assert(pre.observed(*self, thread_token, thread_name, last));
        }
    }

    /// A span was exited: record its end entry for the current session.
    pub fn on_exit(
        &mut self,
        ts: u64,
        meta: &EventMeta,
        args: StoredRecord,
        thread_token: u64,
        thread_name: Option<String>,
    )
        requires
            old(self).wf(),
            old(self).max_tid() < u64::MAX,
        ensures
            final(self).wf(),
            exists|last: TraceEntry|
                old(self).observed(*final(self), thread_token, thread_name, last)
                    && end_entry_matches(last, ts, *old(self), *meta, args@, thread_token),
            final(self).token_has_current(thread_token),
            final(self).session_tid(thread_token) == old(self).session_tid(thread_token),
            final(self).max_tid() <= old(self).max_tid() + 1,
            old(self).token_has_current(thread_token) ==> final(self).threads() == old(
                self,
            ).threads() && final(self).max_tid() == old(self).max_tid(),
            forall|k: int|
                0 <= k < old(self).threads().len() && (#[trigger] old(self).threads()[k]).session
                    == old(self).session() ==> k < final(self).threads().len()
                    && final(self).threads()[k] == old(self).threads()[k],
    {
        let ghost pre = *self;
        let callsite = self.get_callsite(meta, args, thread_token, thread_name);
        let ghost cs = callsite;
        let ghost mid = *self;
        let _ = self.worker.handle_message(Message::Exit(ts, callsite, None));
        proof {
            let last = TraceEntry::SpanEnd { ts, callsite: cs, id: None };
            self.lemma_occurrence_recorded(pre, mid, last);
            if pre.recording() {
                assert(self.entries() == mid.entries().push(last));
                assert(self.entries().drop_last() =~= mid.entries());
                if !pre.token_has_current(thread_token) {
                    assert(self.entries()[pre.entries().len() as int] == mid.entries()[pre.entries().len() as int]);
                    assert(mid.entries()[pre.entries().len() as int] == mid.entries().last());
                    assert(self.entries().drop_last().drop_last() == pre.entries());
                }
            }
            assert(self.threads() == mid.threads());
            assert(self.session() == mid.session());
            assert(self.max_tid() == mid.max_tid());
            let kw = choose|kw: int|
                mid.slot_current(kw, thread_token) && (#[trigger] mid.threads()[kw]).tid
                    == cs.tid;
            assert(self.slot_current(kw, thread_token));
            self.lemma_session_tid_from_slot(thread_token, kw);
            assert(end_entry_matches(last, ts, pre, *meta, args@, thread_token));
            assert(pre.observed(*self, thread_token, thread_name, last));
        }
    }

    /// An instant event fired: record its entry for the current session.
    pub fn on_event(
        &mut self,
        ts: u64,
        meta: &EventMeta,
        args: StoredRecord,
        thread_token: u64,
        thread_name: Option<String>,
    )
        requires
            old(self).wf(),
            old(self).max_tid() < u64::MAX,
        ensures
            final(self).wf(),
            exists|last: TraceEntry|
                old(self).observed(*final(self), thread_token, thread_name, last)
                    && instant_entry_matches(last, ts, *old(self), *meta, args@, thread_token),
            final(self).token_has_current(thread_token),
            final(self).session_tid(thread_token) == old(self).session_tid(thread_token),
            final(self).max_tid() <= old(self).max_tid() + 1,
            old(self).token_has_current(thread_token) ==> final(self).threads() == old(
                self,
            ).threads() && final(self).max_tid() == old(self).max_tid(),
            forall|k: int|
                0 <= k < old(self).threads().len() && (#[trigger] old(self).threads()[k]).session
                    == old(self).session() ==> k < final(self).threads().len()
                    && final(self).threads()[k] == old(self).threads()[k],
    {
        let ghost pre = *self;
        let callsite = self.get_callsite(meta, args, thread_token, thread_name);
        let ghost cs = callsite;
        let ghost mid = *self;
        let _ = self.worker.handle_message(Message::Event(ts, callsite));
        proof {
            let last = TraceEntry::Instant { ts, callsite: cs };
            self.lemma_occurrence_recorded(pre, mid, last);
            if pre.recording() {
                assert(self.entries() == mid.entries().push(last));
                assert(self.entries().drop_last() =~= mid.entries());
                if !pre.token_has_current(thread_token) {
                    assert(self.entries()[pre.entries().len() as int] == mid.entries()[pre.entries().len() as int]);
                    assert(mid.entries()[pre.entries().len() as int] == mid.entries().last());
                    assert(self.entries().drop_last().drop_last() == pre.entries());
                }
            }
            assert(self.threads() == mid.threads());
            assert(self.session() == mid.session());
            assert(self.max_tid() == mid.max_tid());
            let kw = choose|kw: int|
                mid.slot_current(kw, thread_token) && (#[trigger] mid.threads()[kw]).tid
                    == cs.tid;
            assert(self.slot_current(kw, thread_token));
            self.lemma_session_tid_from_slot(thread_token, kw);
            assert(instant_entry_matches(last, ts, pre, *meta, args@, thread_token));
            assert(pre.observed(*self, thread_token, thread_name, last));
        }
    }

    /// Pushing one non-label entry whose id is current and announced
    /// preserves the invariant. `pre` is the state before `get_callsite`,
    /// `mid` the state after it; `self` has `last` pushed when recording.
    proof fn lemma_occurrence_recorded(&self, pre: ChromeLayer, mid: ChromeLayer, last: TraceEntry)
        requires
            mid.wf(),
            !is_thread_name(last),
            self.session() == mid.session(),
            self.recording() == mid.recording(),
            self.threads() == mid.threads(),
            self.max_tid() == mid.max_tid(),
            mid.recording() ==> self.entries() == mid.entries().push(last),
            !mid.recording() ==> self.entries() == mid.entries(),
            exists|k: int|
                mid.slot_current(k, #[trigger] mid.threads()[k].token) && mid.threads()[k].tid
                    == entry_tid(last),
        ensures
            self.wf(),
    {
        if mid.recording() {
            let k = choose|k: int|
                mid.slot_current(k, #[trigger] mid.threads()[k].token) && mid.threads()[k].tid
                    == entry_tid(last);
            assert(announced(mid.entries(), entry_tid(last)));
            assert forall|a: int, b: int|
                0 <= a < b < self.entries().len() && is_thread_name(#[trigger] self.entries()[a])
                    && is_thread_name(#[trigger] self.entries()[b]) implies entry_tid(
                self.entries()[a],
            ) != entry_tid(self.entries()[b]) by {
                assert(self.entries()[a] == mid.entries()[a]);
                assert(b < self.entries().len() - 1);
                assert(self.entries()[b] == mid.entries()[b]);
            }
            assert forall|a: int|
                0 <= a < self.entries().len() && !is_thread_name(
                    #[trigger] self.entries()[a],
                ) implies announced_before(self.entries(), entry_tid(self.entries()[a]), a) by {
                if a < self.entries().len() - 1 {
                    assert(self.entries()[a] == mid.entries()[a]);
                    assert(announced_before(mid.entries(), entry_tid(mid.entries()[a]), a));
                    let j = choose|j: int|
                        0 <= j < a && is_thread_name(#[trigger] mid.entries()[j]) && entry_tid(
                            mid.entries()[j],
                        ) == entry_tid(mid.entries()[a]);
                    assert(self.entries()[j] == mid.entries()[j]);
                } else {
                    let j = choose|j: int|
                        0 <= j < mid.entries().len() && is_thread_name(#[trigger] mid.entries()[j])
                            && entry_tid(mid.entries()[j]) == entry_tid(last);
                    assert(self.entries()[j] == mid.entries()[j]);
                }
            }
            assert forall|a: int|
                0 <= a < self.entries().len() implies entry_tid(#[trigger] self.entries()[a])
                < self.max_tid() by {
                if a < self.entries().len() - 1 {
                    assert(self.entries()[a] == mid.entries()[a]);
                    assert(entry_tid(mid.entries()[a]) < mid.max_tid());
                }
            }
            assert forall|a: int|
                0 <= a < self.entries().len() implies self.tid_in_session(
                entry_tid(#[trigger] self.entries()[a]),
            ) by {
                if a < self.entries().len() - 1 {
                    assert(self.entries()[a] == mid.entries()[a]);
                    assert(mid.tid_in_session(entry_tid(mid.entries()[a])));
                } else {
                    assert(mid.tid_in_session(entry_tid(last)));
                }
            }
            assert forall|k2: int|
                0 <= k2 < self.threads().len() && (#[trigger] self.threads()[k2]).session
                    == self.session() implies announced(self.entries(), self.threads()[k2].tid) by {
                assert(announced(mid.entries(), mid.threads()[k2].tid));
                let j = choose|j: int|
                    0 <= j < mid.entries().len() && is_thread_name(#[trigger] mid.entries()[j])
                        && entry_tid(mid.entries()[j]) == mid.threads()[k2].tid;
                assert(self.entries()[j] == mid.entries()[j]);
            }
            assert(self.wf());
        } else {
            assert(self.wf());
        }
    }
}


/// Misuse of the capture API.
#[derive(Clone, Copy, PartialEq, Eq, Structural, Debug)]
pub enum CaptureError {
    /// `stop` was called with no session being recorded.
    StopWithoutStart,
}

/// The capture controls: start a numbered recording session, and stop one to
/// receive its document, optionally starting the next session in the same
/// step so no frame falls between two capture windows.
pub struct ChromeLayerController;

impl ChromeLayerController {
    /// Begin a new recording session: the assembly buffer is cleared and the
    /// session counter is incremented, so every thread id minted before now
    /// belongs to an older session and will be re-minted on first use.
    pub fn start(layer: &mut ChromeLayer)
        requires
            old(layer).wf(),
            old(layer).session() < u64::MAX,
        ensures
            final(layer).wf(),
            final(layer).recording(),
            final(layer).entries().len() == 0,
            final(layer).session() == old(layer).session() + 1,
            final(layer).threads() == old(layer).threads(),
            final(layer).max_tid() == old(layer).max_tid(),
    {
        layer.session = layer.session + 1;
        let _ = layer.worker.handle_message(Message::Start);
        proof {
            assert forall|k: int|
                0 <= k < layer.threads().len() implies (#[trigger] layer.threads()[k]).session
                != layer.session() by {
                assert(layer.threads()[k] == old(layer).threads()[k]);
                assert(old(layer).threads()[k].session <= old(layer).session());
            }
            assert(layer.wf());
        }
    }

    /// Stop the current recording session and return its finished document.
    /// With `immediate_start` the next session begins in the same step.
    /// Stopping with no session being recorded is a caller contract
    /// violation and is rejected.
    pub fn stop(layer: &mut ChromeLayer, immediate_start: bool) -> (result: Result<
        String,
        CaptureError,
    >)
        requires
            old(layer).wf(),
            old(layer).session() < u64::MAX,
        ensures
            final(layer).wf(),
            old(layer).recording() <==> result is Ok,
            !old(layer).recording() ==> *final(layer) == *old(layer) && result === Err(
                CaptureError::StopWithoutStart,
            ),
            old(layer).recording() ==> result->Ok_0@ == document_json(old(layer).entries()),
            final(layer).threads() == old(layer).threads(),
            final(layer).max_tid() == old(layer).max_tid(),
            old(layer).recording() && immediate_start ==> final(layer).recording()
                && final(layer).entries().len() == 0
                && final(layer).session() == old(layer).session() + 1,
            old(layer).recording() && !immediate_start ==> !final(layer).recording()
                && final(layer).entries() == old(layer).entries()
                && final(layer).session() == old(layer).session(),
    {
        if !layer.is_recording() {
            return Err(CaptureError::StopWithoutStart);
        }
        let doc = layer.worker.handle_message(Message::Stop);
        proof {
            assert(layer.entries() == old(layer).entries());
            assert(layer.threads() == old(layer).threads());
            assert forall|a: int|
                0 <= a < layer.entries().len() implies layer.tid_in_session(
                entry_tid(#[trigger] layer.entries()[a]),
            ) by {
                assert(old(layer).tid_in_session(entry_tid(old(layer).entries()[a])));
                let k = choose|k: int|
                    0 <= k < old(layer).threads().len() && (#[trigger] old(layer).threads()[
                        k
                    ]).session == old(layer).session() && old(layer).threads()[k].tid == entry_tid(
                        old(layer).entries()[a],
                    );
                assert(layer.threads()[k] == old(layer).threads()[k]);
            }
            assert(layer.wf());
        }
        if immediate_start {
            Self::start(layer);
        }
        match doc {
            Some(document) => Ok(document),
            None => {
                proof {
                    assert(false);
                }
                Err(CaptureError::StopWithoutStart)
            },
        }
    }
}

// ---------------------------------------------------------------------------
// Session isolation, as laws
// ---------------------------------------------------------------------------
/// Thread ids are re-minted per session: every id referenced by an entry of
/// the current buffer was minted for the current session, so no entry ever
/// refers to an id assigned during an earlier session.
pub proof fn lemma_session_isolation(layer: ChromeLayer, i: int)
    requires
        layer.wf(),
        0 <= i < layer.entries().len(),
    ensures
        layer.tid_in_session(entry_tid(layer.entries()[i])),
{
}

/// Each thread id used in a session's document is labeled by exactly one
/// thread-name entry: at least one appears before the id's first use, and no
/// two label the same id.
pub proof fn lemma_thread_labeled_before_use(layer: ChromeLayer, i: int)
    requires
        layer.wf(),
        0 <= i < layer.entries().len(),
        !is_thread_name(layer.entries()[i]),
    ensures
        announced_before(layer.entries(), entry_tid(layer.entries()[i]), i),
{
}

/// No thread id is labeled twice within one session's document.
pub proof fn lemma_thread_labeled_once(layer: ChromeLayer, i: int, j: int)
    requires
        layer.wf(),
        0 <= i < layer.entries().len(),
        0 <= j < layer.entries().len(),
        is_thread_name(layer.entries()[i]),
        is_thread_name(layer.entries()[j]),
        entry_tid(layer.entries()[i]) == entry_tid(layer.entries()[j]),
    ensures
        i == j,
{
    if i < j {
        assert(entry_tid(layer.entries()[i]) != entry_tid(layer.entries()[j]));
    }
    if j < i {
        assert(entry_tid(layer.entries()[j]) != entry_tid(layer.entries()[i]));
    }
}

/// The timestamp an entry carries, if any: thread-row labels are untimed.
pub open spec fn entry_ts(e: TraceEntry) -> Option<u64> {
    match e {
        TraceEntry::ThreadName { .. } => None,
        TraceEntry::SpanBegin { ts, .. } => Some(ts),
        TraceEntry::SpanEnd { ts, .. } => Some(ts),
        TraceEntry::Instant { ts, .. } => Some(ts),
    }
}

/// Whether the timed entries of a buffer appear in timestamp order. Entries
/// stand in the order their callbacks were handled, so this holds whenever
/// the callbacks carried timestamps read from one monotonic clock; a host
/// that passes arbitrary timestamps can break it.
pub open spec fn ts_ordered(entries: Seq<TraceEntry>) -> bool {
    forall|a: int, b: int|
        0 <= a < b < entries.len() && entry_ts(#[trigger] entries[a]) is Some && entry_ts(
            #[trigger] entries[b],
        ) is Some ==> entry_ts(entries[a])->0 <= entry_ts(entries[b])->0
}

/// Within a document whose entries are in timestamp order, timestamps are
/// monotonically non-decreasing within each single thread id.
pub proof fn lemma_timestamps_ordered_per_thread(entries: Seq<TraceEntry>, a: int, b: int)
    requires
        ts_ordered(entries),
        0 <= a < b < entries.len(),
        entry_tid(entries[a]) == entry_tid(entries[b]),
        entry_ts(entries[a]) is Some,
        entry_ts(entries[b]) is Some,
    ensures
        entry_ts(entries[a])->0 <= entry_ts(entries[b])->0,
{
}

/// Appending an entry whose timestamp is no older than everything already
/// buffered keeps the buffer in timestamp order: each observation callback
/// appends at the end, so one monotonic clock keeps the whole document
/// ordered.
pub proof fn lemma_order_preserved_by_observation(entries: Seq<TraceEntry>, entry: TraceEntry)
    requires
        ts_ordered(entries),
        forall|a: int|
            0 <= a < entries.len() && entry_ts(#[trigger] entries[a]) is Some && entry_ts(entry)
                is Some ==> entry_ts(entries[a])->0 <= entry_ts(entry)->0,
    ensures
        ts_ordered(entries.push(entry)),
{
    let pushed = entries.push(entry);
    assert forall|a: int, b: int|
        0 <= a < b < pushed.len() && entry_ts(#[trigger] pushed[a]) is Some && entry_ts(
            #[trigger] pushed[b],
        ) is Some implies entry_ts(pushed[a])->0 <= entry_ts(pushed[b])->0 by {
        assert(pushed[a] == entries[a]);
        if b < pushed.len() - 1 {
            assert(pushed[b] == entries[b]);
        }
    }
}

// ---------------------------------------------------------------------------
// Multi-frame capture
// ---------------------------------------------------------------------------
/// The views of a list of rendered documents.
pub open spec fn docs_views(docs: Seq<String>) -> Seq<Seq<char>> {
    docs.map_values(|d: String| d@)
}

/// Whether a rendered value has the outer shape of an array document: at
/// least the two brackets, one at each end.
pub open spec fn is_array_doc(d: Seq<char>) -> bool {
    d.len() >= 2 && d[0] == '[' && d[d.len() - 1] == ']'
}

/// What stands between an array document's outer brackets: its entry
/// objects, comma-joined.
pub open spec fn doc_body(d: Seq<char>) -> Seq<char> {
    d.subrange(1, d.len() - 1)
}

/// The bodies of the documents that hold at least one entry, in order.
pub open spec fn nonempty_bodies(docs: Seq<Seq<char>>) -> Seq<Seq<char>>
    decreases docs.len(),
{
    if docs.len() == 0 {
        Seq::empty()
    } else if doc_body(docs.last()).len() == 0 {
        nonempty_bodies(docs.drop_last())
    } else {
        nonempty_bodies(docs.drop_last()).push(doc_body(docs.last()))
    }
}

/// The combined value of consecutive capture windows: every window's entry
/// objects in one flat array, comma-joined across windows, with the outer
/// brackets added once.
pub open spec fn combined_json(docs: Seq<Seq<char>>) -> Seq<char> {
    seq!['['] + join_comma(nonempty_bodies(docs)) + seq![']']
}

/// All the windows' entries, in capture order.
pub open spec fn all_entries(windows: Seq<Seq<TraceEntry>>) -> Seq<TraceEntry>
    decreases windows.len(),
{
    if windows.len() == 0 {
        Seq::empty()
    } else {
        all_entries(windows.drop_last()) + windows.last()
    }
}

/// Combine the documents of consecutive capture windows into one document:
/// each window's own brackets are stripped, the surviving entry objects are
/// joined by commas, and one outer pair of brackets frames the whole, so the
/// result is a single flat array of entries.
pub fn combine_documents(docs: &Vec<String>) -> (combined: String)
    requires
        forall|i: int| 0 <= i < docs@.len() ==> is_array_doc((#[trigger] docs@[i])@),
    ensures
        combined@ == combined_json(docs_views(docs@)),
{
    let mut out = String::new();
    push_char(&mut out, '[');
    let n = docs.len();
    let mut i: usize = 0;
    let mut first = true;
    while i < n
        invariant
            0 <= i <= n,
            n == docs@.len(),
            forall|k: int| 0 <= k < n ==> is_array_doc((#[trigger] docs@[k])@),
            first <==> nonempty_bodies(docs_views(docs@.take(i as int))).len() == 0,
            out@ == seq!['['] + join_comma(nonempty_bodies(docs_views(docs@.take(i as int)))),
        decreases n - i,
    {
        let d = docs[i].as_str();
        let len = d.unicode_len();
        proof {
            assert(docs_views(docs@.take(i + 1)).drop_last() =~= docs_views(docs@.take(i as int)));
            assert(docs_views(docs@.take(i + 1)).last() == docs@[i as int]@);
        }
        if len > 2 {
            if first {
                first = false;
            } else {
                push_char(&mut out, ',');
            }
            let body = d.substring_char(1, len - 1);
            out.append(body);
            proof {
                let prefix = nonempty_bodies(docs_views(docs@.take(i as int)));
                let b = doc_body(docs@[i as int]@);
                assert(body@ == b);
                assert(b.len() == len - 2);
                lemma_join_comma_push(prefix, b);
                assert(nonempty_bodies(docs_views(docs@.take(i + 1))) == prefix.push(b));
                assert(out@ =~= seq!['['] + join_comma(
                    nonempty_bodies(docs_views(docs@.take(i + 1))),
                ));
            }
        } else {
            proof {
                assert(doc_body(docs@[i as int]@).len() == 0);
                assert(nonempty_bodies(docs_views(docs@.take(i + 1))) == nonempty_bodies(
                    docs_views(docs@.take(i as int)),
                ));
            }
        }
        i += 1;
    }
    push_char(&mut out, ']');
    proof {
        assert(docs@.take(n as int) =~= docs@);
        assert(out@ =~= combined_json(docs_views(docs@)));
    }
    out
}

proof fn lemma_join_comma_concat(a: Seq<Seq<char>>, b: Seq<Seq<char>>)
    ensures
        b.len() == 0 ==> join_comma(a + b) == join_comma(a),
        a.len() == 0 ==> join_comma(a + b) == join_comma(b),
        a.len() > 0 && b.len() > 0 ==> join_comma(a + b) == join_comma(a) + seq![','] + join_comma(
            b,
        ),
    decreases b.len(),
{
    if b.len() == 0 {
        assert(a + b =~= a);
    } else if a.len() == 0 {
        assert(a + b =~= b);
    } else if b.len() == 1 {
        assert((a + b).drop_last() =~= a);
        assert((a + b).last() == b[0]);
        assert(join_comma(b) == b[0]);
    } else {
        lemma_join_comma_concat(a, b.drop_last());
        assert((a + b).drop_last() =~= a + b.drop_last());
        assert((a + b).last() == b.last());
        assert(join_comma(a) + seq![','] + (join_comma(b.drop_last()) + seq![','] + b.last()) =~= (
        join_comma(a) + seq![','] + join_comma(b.drop_last())) + seq![','] + b.last());
    }
}

proof fn lemma_join_comma_nonempty(parts: Seq<Seq<char>>)
    requires
        parts.len() > 0,
        parts[0].len() > 0,
    ensures
        join_comma(parts).len() > 0,
{
    if parts.len() == 1 {
        assert(join_comma(parts) == parts[0]);
    }
}

/// A rendered session document always has the array shape, and its body is
/// exactly its entries' objects comma-joined — empty exactly when the
/// session recorded nothing.
pub proof fn lemma_document_shape(entries: Seq<TraceEntry>)
    ensures
        is_array_doc(document_json(entries)),
        doc_body(document_json(entries)) == join_comma(entries_json(entries)),
        doc_body(document_json(entries)).len() == 0 <==> entries.len() == 0,
{
    let d = document_json(entries);
    let body = join_comma(entries_json(entries));
    assert(d.len() == body.len() + 2);
    assert(d[0] == '[');
    assert(d[d.len() - 1] == ']');
    assert(doc_body(d) =~= body);
    if entries.len() > 0 {
        assert(entries_json(entries)[0] == entry_json(entries[0]));
        assert(entry_json(entries[0]).len() >= 2);
        lemma_join_comma_nonempty(entries_json(entries));
    } else {
        assert(entries_json(entries).len() == 0);
    }
}

/// Multi-frame flattening: when each rendered document is the document of
/// its capture window, combining them yields the single document of all the
/// windows' entries in capture order — one flat array of entry objects, not
/// an array of per-window arrays.
pub proof fn lemma_multi_frame_flat(windows: Seq<Seq<TraceEntry>>, docs: Seq<Seq<char>>)
    requires
        docs.len() == windows.len(),
        forall|i: int| 0 <= i < docs.len() ==> #[trigger] docs[i] == document_json(windows[i]),
    ensures
        forall|i: int| 0 <= i < docs.len() ==> is_array_doc(#[trigger] docs[i]),
        combined_json(docs) == document_json(all_entries(windows)),
{
    assert forall|i: int| 0 <= i < docs.len() implies is_array_doc(#[trigger] docs[i]) by {
        lemma_document_shape(windows[i]);
    }
    lemma_flat_bodies(windows, docs);
}

proof fn lemma_flat_bodies(windows: Seq<Seq<TraceEntry>>, docs: Seq<Seq<char>>)
    requires
        docs.len() == windows.len(),
        forall|i: int| 0 <= i < docs.len() ==> #[trigger] docs[i] == document_json(windows[i]),
    ensures
        join_comma(nonempty_bodies(docs)) == join_comma(entries_json(all_entries(windows))),
        nonempty_bodies(docs).len() == 0 <==> all_entries(windows).len() == 0,
    decreases windows.len(),
{
    if windows.len() == 0 {
        assert(nonempty_bodies(docs) =~= Seq::<Seq<char>>::empty());
        assert(all_entries(windows) =~= Seq::<TraceEntry>::empty());
        assert(entries_json(all_entries(windows)) =~= Seq::<Seq<char>>::empty());
    } else {
        let w = windows.drop_last();
        let dd = docs.drop_last();
        let lw = windows.last();
        let ld = docs.last();
        assert forall|i: int| 0 <= i < dd.len() implies #[trigger] dd[i] == document_json(
            w[i],
        ) by {
            assert(dd[i] == docs[i]);
            assert(w[i] == windows[i]);
        }
        lemma_flat_bodies(w, dd);
        lemma_document_shape(lw);
        let left = entries_json(all_entries(w));
        let right = entries_json(lw);
        assert(entries_json(all_entries(windows)) =~= left + right);
        if lw.len() == 0 {
            assert(doc_body(ld).len() == 0);
            assert(nonempty_bodies(docs) == nonempty_bodies(dd));
            assert(all_entries(windows) =~= all_entries(w));
        } else {
            assert(doc_body(ld).len() > 0);
            assert(nonempty_bodies(docs) == nonempty_bodies(dd).push(doc_body(ld)));
            lemma_join_comma_push(nonempty_bodies(dd), doc_body(ld));
            lemma_join_comma_concat(left, right);
            if all_entries(w).len() == 0 {
                assert(nonempty_bodies(dd).len() == 0);
                assert(join_comma(nonempty_bodies(docs)) == doc_body(ld));
                assert(left + right =~= right);
                assert(doc_body(ld) == join_comma(right));
            } else {
                assert(nonempty_bodies(dd).len() > 0);
                assert(join_comma(nonempty_bodies(docs)) == join_comma(nonempty_bodies(dd))
                    + seq![','] + doc_body(ld));
                assert(join_comma(entries_json(all_entries(windows))) == join_comma(left)
                    + seq![','] + join_comma(right));
            }
        }
    }
}

} // verus!
