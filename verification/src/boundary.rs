//! The marshaling boundary: the scratch state values cross on their way in
//! and out of the store, one scalar at a time.
//!
//! The host side of the boundary is modelled as explicit state — a value
//! stack, string and blob staging buffers, the caller's worker identity and
//! a log — owned by the caller and passed by reference; there is no hidden
//! global. The entry points mirror the call boundary: arguments are popped
//! off a per-worker scratch stack, results are pushed back through the
//! staging state.

use vstd::prelude::*;

use crate::codec::u32_from_le;
use crate::codec::u64_from_le;
use crate::database::Database;
use crate::database::Operation;
use crate::row::vals_view;
use crate::value::Something;
use crate::value::ValView;

verus! {

/// The host-side staging state: the host's value stack, the string and
/// blob staging buffers, the current worker's identity, and the log.
#[derive(Debug)]
pub struct MarshalState {
    pub stack: Vec<Something>,
    pub string_buffer: Vec<u8>,
    pub blob_buffer: Vec<u8>,
    pub worker: i32,
    pub logs: Vec<Something>,
    pub value_buffer: Vec<u8>,
}

impl MarshalState {
    /// Fresh staging state for worker 0.
    pub fn new() -> (m: MarshalState)
        ensures
            m.stack@ == Seq::<Something>::empty(),
            m.string_buffer@ == Seq::<u8>::empty(),
            m.blob_buffer@ == Seq::<u8>::empty(),
            m.worker == 0,
            m.logs@ == Seq::<Something>::empty(),
            m.value_buffer@ == Seq::<u8>::empty(),
    {
        MarshalState {
            stack: Vec::new(),
            string_buffer: Vec::new(),
            blob_buffer: Vec::new(),
            worker: 0,
            logs: Vec::new(),
            value_buffer: Vec::new(),
        }
    }
}

/// Reads one byte of the staged string; out-of-range reads yield 0.
pub fn safe_read_string(state: &MarshalState, index: usize) -> (r: u8)
    ensures
        r == if index < state.string_buffer@.len() {
            state.string_buffer@[index as int]
        } else {
            0u8
        },
{
    if index < state.string_buffer.len() {
        state.string_buffer[index]
    } else {
        0
    }
}

/// Appends one byte to the staged string.
pub fn safe_push_to_string(state: &mut MarshalState, byte: u8)
    ensures
        final(state).string_buffer@ == old(state).string_buffer@.push(byte),
        final(state).stack == old(state).stack,
        final(state).blob_buffer == old(state).blob_buffer,
        final(state).worker == old(state).worker,
        final(state).logs == old(state).logs,
        final(state).value_buffer == old(state).value_buffer,
{
    state.string_buffer.push(byte);
}

/// The staged string's length.
pub fn safe_read_string_length(state: &MarshalState) -> (n: usize)
    ensures
        n == state.string_buffer@.len(),
{
    state.string_buffer.len()
}

/// Pops and discards the top of the host stack, if any.
pub fn safe_js_pop_stack(state: &mut MarshalState)
    ensures
        final(state).stack@ == if old(state).stack@.len() > 0 {
            old(state).stack@.drop_last()
        } else {
            old(state).stack@
        },
        final(state).string_buffer == old(state).string_buffer,
        final(state).blob_buffer == old(state).blob_buffer,
        final(state).worker == old(state).worker,
        final(state).logs == old(state).logs,
        final(state).value_buffer == old(state).value_buffer,
{
    let _ = state.stack.pop();
}

/// Starts a fresh staged string.
pub fn safe_create_string(state: &mut MarshalState)
    ensures
        final(state).string_buffer@ == Seq::<u8>::empty(),
        final(state).stack == old(state).stack,
        final(state).blob_buffer == old(state).blob_buffer,
        final(state).worker == old(state).worker,
        final(state).logs == old(state).logs,
        final(state).value_buffer == old(state).value_buffer,
{
    state.string_buffer.clear();
}

/// Pushes a 32-bit integer onto the host stack.
pub fn safe_put_i32(state: &mut MarshalState, value: i32)
    ensures
        final(state).stack@ == old(state).stack@.push(Something::Int(value as i64)),
        final(state).string_buffer == old(state).string_buffer,
        final(state).blob_buffer == old(state).blob_buffer,
        final(state).worker == old(state).worker,
        final(state).logs == old(state).logs,
        final(state).value_buffer == old(state).value_buffer,
{
    state.stack.push(Something::Int(value as i64));
}

/// Pushes a float's bit pattern onto the host stack.
pub fn safe_put_f64_bits(state: &mut MarshalState, bits: u64)
    ensures
        final(state).stack@ == old(state).stack@.push(Something::Float(bits)),
        final(state).string_buffer == old(state).string_buffer,
        final(state).blob_buffer == old(state).blob_buffer,
        final(state).worker == old(state).worker,
        final(state).logs == old(state).logs,
        final(state).value_buffer == old(state).value_buffer,
{
    state.stack.push(Something::Float(bits));
}

/// Logs the value at the top of the host stack, if any.
pub fn safe_log_stack_value(state: &mut MarshalState)
    ensures
        final(state).logs@.len() == old(state).logs@.len() + if old(state).stack@.len() > 0 {
            1int
        } else {
            0int
        },
        old(state).stack@.len() > 0 ==> final(state).logs@.last()@ == old(state).stack@.last()@ && final(state).logs@.drop_last() == old(state).logs@,
        old(state).stack@.len() == 0 ==> final(state).logs == old(state).logs,
        final(state).stack == old(state).stack,
        final(state).string_buffer == old(state).string_buffer,
        final(state).blob_buffer == old(state).blob_buffer,
        final(state).worker == old(state).worker,
        final(state).value_buffer == old(state).value_buffer,
{
    if state.stack.len() > 0 {
        let v = state.stack[state.stack.len() - 1].clone();
        state.logs.push(v);
    }
}

/// Pushes `Null` onto the host stack.
pub fn safe_push_null(state: &mut MarshalState)
    ensures
        final(state).stack@ == old(state).stack@.push(Something::Null),
        final(state).string_buffer == old(state).string_buffer,
        final(state).blob_buffer == old(state).blob_buffer,
        final(state).worker == old(state).worker,
        final(state).logs == old(state).logs,
        final(state).value_buffer == old(state).value_buffer,
{
    state.stack.push(Something::Null);
}

/// Starts a fresh staged blob; the size is a capacity hint only.
pub fn safe_create_blob(state: &mut MarshalState, _size: usize)
    ensures
        final(state).blob_buffer@ == Seq::<u8>::empty(),
        final(state).stack == old(state).stack,
        final(state).string_buffer == old(state).string_buffer,
        final(state).worker == old(state).worker,
        final(state).logs == old(state).logs,
        final(state).value_buffer == old(state).value_buffer,
{
    state.blob_buffer.clear();
}

/// Appends one byte to the staged blob.
pub fn safe_push_to_blob(state: &mut MarshalState, byte: u8)
    ensures
        final(state).blob_buffer@ == old(state).blob_buffer@.push(byte),
        final(state).stack == old(state).stack,
        final(state).string_buffer == old(state).string_buffer,
        final(state).worker == old(state).worker,
        final(state).logs == old(state).logs,
        final(state).value_buffer == old(state).value_buffer,
{
    state.blob_buffer.push(byte);
}

/// The staged blob's length.
pub fn safe_read_blob_length(state: &MarshalState) -> (n: usize)
    ensures
        n == state.blob_buffer@.len(),
{
    state.blob_buffer.len()
}

/// Reads one byte of the staged blob; out-of-range reads yield 0.
pub fn safe_read_blob_byte(state: &MarshalState, index: usize) -> (r: u8)
    ensures
        r == if index < state.blob_buffer@.len() {
            state.blob_buffer@[index as int]
        } else {
            0u8
        },
{
    if index < state.blob_buffer.len() {
        state.blob_buffer[index]
    } else {
        0
    }
}

/// The calling worker's identity.
pub fn worker_id(state: &MarshalState) -> (w: usize)
    requires
        state.worker >= 0,
    ensures
        w == state.worker as usize,
{
    state.worker as usize
}

/// Stamps the calling worker's identity.
pub fn set_worker_id(state: &mut MarshalState, id: i32)
    ensures
        final(state).worker == id,
        final(state).stack == old(state).stack,
        final(state).string_buffer == old(state).string_buffer,
        final(state).blob_buffer == old(state).blob_buffer,
        final(state).logs == old(state).logs,
        final(state).value_buffer == old(state).value_buffer,
{
    state.worker = id;
}

/// Appends a message to the log.
pub fn log_string(state: &mut MarshalState, message: &[u8])
    ensures
        final(state).logs@.len() == old(state).logs@.len() + 1,
        final(state).logs@.last()@ == ValView::Text(message@),
        final(state).logs@.drop_last() == old(state).logs@,
        final(state).stack == old(state).stack,
        final(state).string_buffer == old(state).string_buffer,
        final(state).blob_buffer == old(state).blob_buffer,
        final(state).worker == old(state).worker,
        final(state).value_buffer == old(state).value_buffer,
{
    let mut bytes: Vec<u8> = Vec::new();
    let mut i: usize = 0;
    while i < message.len()
        invariant
            0 <= i <= message@.len(),
            bytes@ == message@.subrange(0, i as int),
            self_frame(state, old(state)),
        decreases message@.len() - i,
    {
        bytes.push(message[i]);
        proof {
            assert(bytes@ =~= message@.subrange(0, i + 1));
        }
        i = i + 1;
    }
    proof {
        assert(message@.subrange(0, message@.len() as int) =~= message@);
    }
    state.logs.push(Something::Text(bytes));
    proof {
        assert(final(state).logs@.drop_last() =~= old(state).logs@);
    }
}

/// The staging state is untouched.
pub open spec fn self_frame(a: &MarshalState, b: &MarshalState) -> bool {
    &&& a.stack == b.stack
    &&& a.string_buffer == b.string_buffer
    &&& a.blob_buffer == b.blob_buffer
    &&& a.worker == b.worker
    &&& a.logs == b.logs
    &&& a.value_buffer == b.value_buffer
}

/// Stages a string and pushes it onto the host stack, as a host would
/// before a call.
pub fn setup_mock_string(state: &mut MarshalState, data: Vec<u8>)
    ensures
        final(state).string_buffer@ == data@,
        final(state).stack@.len() == old(state).stack@.len() + 1,
        final(state).stack@.last()@ == ValView::Text(data@),
        final(state).stack@.drop_last() == old(state).stack@,
        final(state).blob_buffer == old(state).blob_buffer,
        final(state).worker == old(state).worker,
        final(state).logs == old(state).logs,
        final(state).value_buffer == old(state).value_buffer,
{
    let copy = data.clone();
    proof {
        assert(copy@ =~= data@);
    }
    state.string_buffer = copy;
    state.stack.push(Something::Text(data));
    proof {
        assert(final(state).stack@.drop_last() =~= old(state).stack@);
    }
}

/// Stages a blob and pushes it onto the host stack, as a host would before
/// a call.
pub fn setup_mock_blob(state: &mut MarshalState, data: Vec<u8>)
    ensures
        final(state).blob_buffer@ == data@,
        final(state).stack@.len() == old(state).stack@.len() + 1,
        final(state).stack@.last()@ == ValView::Blob(data@),
        final(state).stack@.drop_last() == old(state).stack@,
        final(state).string_buffer == old(state).string_buffer,
        final(state).worker == old(state).worker,
        final(state).logs == old(state).logs,
        final(state).value_buffer == old(state).value_buffer,
{
    let copy = data.clone();
    proof {
        assert(copy@ =~= data@);
    }
    state.blob_buffer = copy;
    state.stack.push(Something::Blob(data));
    proof {
        assert(final(state).stack@.drop_last() =~= old(state).stack@);
    }
}

/// Pops the top of the host stack for inspection.
pub fn pop_mock_stack(state: &mut MarshalState) -> (r: Option<Something>)
    ensures
        match r {
            Some(v) => old(state).stack@.len() > 0 && v == old(state).stack@.last() && final(state).stack@ == old(state).stack@.drop_last(),
            None => old(state).stack@.len() == 0 && final(state).stack@ == old(state).stack@,
        },
        final(state).string_buffer == old(state).string_buffer,
        final(state).blob_buffer == old(state).blob_buffer,
        final(state).worker == old(state).worker,
        final(state).logs == old(state).logs,
        final(state).value_buffer == old(state).value_buffer,
{
    state.stack.pop()
}

/// Copies the log out.
pub fn get_mock_logs(state: &MarshalState) -> (r: Vec<Something>)
    ensures
        vals_view(r@) == vals_view(state.logs@),
{
    let mut r: Vec<Something> = Vec::new();
    let mut i: usize = 0;
    while i < state.logs.len()
        invariant
            0 <= i <= state.logs@.len(),
            r@.len() == i,
            forall|k: int| 0 <= k < i ==> r@[k]@ == state.logs@[k]@,
        decreases state.logs@.len() - i,
    {
        r.push(state.logs[i].clone());
        i = i + 1;
    }
    proof {
        assert(vals_view(r@) =~= vals_view(state.logs@));
    }
    r
}

/// Resets the whole staging state for worker 0.
pub fn clear_all_mocks(state: &mut MarshalState)
    ensures
        final(state).stack@ == Seq::<Something>::empty(),
        final(state).string_buffer@ == Seq::<u8>::empty(),
        final(state).blob_buffer@ == Seq::<u8>::empty(),
        final(state).worker == 0,
        final(state).logs@ == Seq::<Something>::empty(),
        final(state).value_buffer@ == Seq::<u8>::empty(),
{
    state.stack.clear();
    state.string_buffer.clear();
    state.blob_buffer.clear();
    state.worker = 0;
    state.logs.clear();
    state.value_buffer.clear();
}

/// How many worker slots the scratch stacks carry.
pub const WORKER_SLOTS: usize = 16;

/// The process-wide shared state, explicitly owned: the database, the
/// per-worker argument stacks, the per-worker queues of uncommitted
/// requests, and the host staging state.
pub struct Globals {
    pub db: Database,
    pub value_stacks: Vec<Vec<Something>>,
    pub op_stacks: Vec<Vec<Operation>>,
    pub marshal: MarshalState,
}

/// Well-formed shared state: a well-formed database, one scratch stack and
/// one request queue per worker slot, and a caller identity inside the
/// slot range.
pub open spec fn globals_wf(g: &Globals) -> bool {
    &&& g.db.wf()
    &&& g.value_stacks@.len() == WORKER_SLOTS
    &&& g.op_stacks@.len() == WORKER_SLOTS
    &&& 0 <= g.marshal.worker < WORKER_SLOTS
}

/// The scratch stacks hold the same values, slot by slot.
pub open spec fn stacks_eq(a: Seq<Vec<Something>>, b: Seq<Vec<Something>>) -> bool {
    a.len() == b.len() && forall|i: int| 0 <= i < a.len() ==> (#[trigger] a[i])@ == b[i]@
}

/// The calling worker's slot.
pub open spec fn cur(g: &Globals) -> int {
    g.marshal.worker as int
}

/// What pushing one value to the host leaves behind: scalars land on the
/// host stack, text and blob payloads land in their staging buffers.
pub open spec fn js_put(m0: MarshalState, m1: MarshalState, v: ValView) -> bool {
    &&& m1.worker == m0.worker
    &&& m1.logs == m0.logs
    &&& m1.value_buffer == m0.value_buffer
    &&& match v {
        ValView::Text(sv) => m1.string_buffer@ == sv && m1.stack == m0.stack && m1.blob_buffer
            == m0.blob_buffer,
        ValView::Blob(sv) => m1.blob_buffer@ == sv && m1.stack == m0.stack && m1.string_buffer
            == m0.string_buffer,
        _ => vals_view(m1.stack@) == vals_view(m0.stack@).push(v) && m1.string_buffer
            == m0.string_buffer && m1.blob_buffer == m0.blob_buffer,
    }
}

impl Globals {
    /// Fresh shared state: an empty database and empty scratch stacks.
    pub fn new() -> (g: Globals)
        ensures
            globals_wf(&g),
            g.db.wf(),
            g.db.tables_view().len() == 1,
            g.db.tables_view()[0].content() == Seq::<crate::content::EntryView>::empty(),
            g.db.tables_view()[0].version() == 0,
            g.db.next_listener() == 0,
            forall|w: int|
                0 <= w < WORKER_SLOTS ==> (#[trigger] g.value_stacks@[w])@ == Seq::<
                    Something,
                >::empty(),
            forall|w: int|
                0 <= w < WORKER_SLOTS ==> (#[trigger] g.op_stacks@[w])@ == Seq::<
                    Operation,
                >::empty(),
            g.marshal.worker == 0,
            g.marshal.stack@ == Seq::<Something>::empty(),
    {
        let mut value_stacks: Vec<Vec<Something>> = Vec::new();
        let mut op_stacks: Vec<Vec<Operation>> = Vec::new();
        let mut i: usize = 0;
        while i < WORKER_SLOTS
            invariant
                0 <= i <= WORKER_SLOTS,
                value_stacks@.len() == i,
                op_stacks@.len() == i,
                forall|w: int|
                    0 <= w < i ==> (#[trigger] value_stacks@[w])@ == Seq::<Something>::empty(),
                forall|w: int|
                    0 <= w < i ==> (#[trigger] op_stacks@[w])@ == Seq::<Operation>::empty(),
            decreases WORKER_SLOTS - i,
        {
            value_stacks.push(Vec::new());
            op_stacks.push(Vec::new());
            i = i + 1;
        }
        Globals { db: Database::new(), value_stacks, op_stacks, marshal: MarshalState::new() }
    }
}

/// Pushes a value onto the calling worker's scratch stack.
pub fn push_to_something_stack(g: &mut Globals, value: Something)
    requires
        globals_wf(old(g)),
    ensures
        globals_wf(final(g)),
        final(g).value_stacks@ == old(g).value_stacks@.update(
            cur(old(g)),
            final(g).value_stacks@[cur(old(g))],
        ),
        (final(g).value_stacks@[cur(old(g))])@ == (old(g).value_stacks@[cur(old(g))])@.push(
            value,
        ),
        final(g).db == old(g).db,
        final(g).op_stacks == old(g).op_stacks,
        final(g).marshal == old(g).marshal,
{
    let w = g.marshal.worker as usize;
    let st = &mut g.value_stacks[w];
    st.push(value);
    proof {
        assert(final(g).value_stacks@ =~= old(g).value_stacks@.update(
            cur(old(g)),
            final(g).value_stacks@[cur(old(g))],
        ));
    }
}

/// Pops the calling worker's scratch stack.
pub fn pop_from_something_stack(g: &mut Globals) -> (r: Option<Something>)
    requires
        globals_wf(old(g)),
    ensures
        globals_wf(final(g)),
        ({
            let w = cur(old(g));
            let st = (old(g).value_stacks@[w])@;
            match r {
                Some(v) => st.len() > 0 && v == st.last() && (final(g).value_stacks@[w])@
                    == st.drop_last(),
                None => st.len() == 0 && (final(g).value_stacks@[w])@ == st,
            }
        }),
        forall|w2: int|
            0 <= w2 < WORKER_SLOTS && w2 != cur(old(g)) ==> final(g).value_stacks@[w2] == old(g).value_stacks@[w2],
        final(g).db == old(g).db,
        final(g).op_stacks == old(g).op_stacks,
        final(g).marshal == old(g).marshal,
{
    let w = g.marshal.worker as usize;
    let st = &mut g.value_stacks[w];
    st.pop()
}

/// Registers a new table and returns its id; the table is registered in
/// the directory under its own id as an integer name.
pub fn table_create(g: &mut Globals) -> (id: usize)
    requires
        globals_wf(old(g)),
        old(g).db.tables_view().len() < 0x7fff_ffff_ffff_ffff,
        old(g).db.tables_view()[0].version() < u64::MAX - 1,
    ensures
        globals_wf(final(g)),
        id == old(g).db.tables_view().len(),
        final(g).db.tables_view().len() == old(g).db.tables_view().len() + 1,
        final(g).db.tables_view()[id as int].content() == Seq::<
            crate::content::EntryView,
        >::empty(),
        final(g).db.tables_view()[id as int].version() == 0,
        crate::database::name_lookup(
            final(g).db.tables_view()[0].content(),
            ValView::Int(id as i64),
        ) == Some(id as u64),
        forall|j: int|
            1 <= j < old(g).db.tables_view().len() ==> final(g).db.tables_view()[j] == old(g).db.tables_view()[j],
        final(g).db.next_listener() == old(g).db.next_listener(),
        final(g).value_stacks == old(g).value_stacks,
        final(g).op_stacks == old(g).op_stacks,
        final(g).marshal == old(g).marshal,
{
    let count = g.db.table_count();
    g.db.create_table(Something::Int(count as i64))
}

/// Queues an insert of the popped value under the popped key, addressed to
/// `table` at column `col`; nothing reaches the table until `commit_ops`.
pub fn table_insert(g: &mut Globals, table: usize, col: usize) -> (r: Option<()>)
    requires
        globals_wf(old(g)),
    ensures
        globals_wf(final(g)),
        ({
            let w = cur(old(g));
            let st = (old(g).value_stacks@[w])@;
            if st.len() >= 2 {
                &&& r is Some
                &&& (final(g).value_stacks@[w])@ == st.drop_last().drop_last()
                &&& (final(g).op_stacks@[w])@ == (old(g).op_stacks@[w])@.push(
                    Operation::Insert {
                        table_id: table,
                        key: st[st.len() - 2],
                        value: st[st.len() - 1],
                        index: col,
                    },
                )
            } else {
                &&& r is None
                &&& final(g).op_stacks == old(g).op_stacks
                &&& (final(g).value_stacks@[w])@ == if st.len() == 1 {
                    st.drop_last()
                } else {
                    st
                }
            }
        }),
        forall|w2: int|
            0 <= w2 < WORKER_SLOTS && w2 != cur(old(g)) ==> final(g).value_stacks@[w2] == old(g).value_stacks@[w2] && final(g).op_stacks@[w2] == old(g).op_stacks@[w2],
        final(g).db == old(g).db,
        final(g).marshal == old(g).marshal,
{
    let value = match pop_from_something_stack(g) {
        Some(v) => v,
        None => {
            return None;
        },
    };
    let key = match pop_from_something_stack(g) {
        Some(v) => v,
        None => {
            return None;
        },
    };
    let w = g.marshal.worker as usize;
    let ops = &mut g.op_stacks[w];
    ops.push(Operation::Insert { table_id: table, key, value, index: col });
    proof {
        assert((old(g).value_stacks@[cur(old(g))])@.drop_last().drop_last() =~= (final(g).value_stacks@[cur(old(g))])@);
    }
    Some(())
}

/// Queues a whole-row insert of everything on the calling worker's scratch
/// stack, addressed to `table`; the stack is drained into the request.
pub fn table_insert_row(g: &mut Globals, table: usize) -> (r: Option<()>)
    requires
        globals_wf(old(g)),
    ensures
        globals_wf(final(g)),
        r is Some,
        ({
            let w = cur(old(g));
            &&& (final(g).value_stacks@[w])@ == Seq::<Something>::empty()
            &&& (final(g).op_stacks@[w])@ == (old(g).op_stacks@[w])@.push(
                Operation::InsertRow { table_id: table, data: old(g).value_stacks@[w] },
            )
        }),
        forall|w2: int|
            0 <= w2 < WORKER_SLOTS && w2 != cur(old(g)) ==> final(g).value_stacks@[w2] == old(g).value_stacks@[w2] && final(g).op_stacks@[w2] == old(g).op_stacks@[w2],
        final(g).db == old(g).db,
        final(g).marshal == old(g).marshal,
{
    let w = g.marshal.worker as usize;
    let mut data: Vec<Something> = Vec::new();
    let st = &mut g.value_stacks[w];
    core::mem::swap(st, &mut data);
    let ops = &mut g.op_stacks[w];
    ops.push(Operation::InsertRow { table_id: table, data });
    Some(())
}

/// Queues a delete of the row stored under the popped key, addressed to
/// `table`.
pub fn delete_row_from_table(g: &mut Globals, table: usize) -> (r: Option<()>)
    requires
        globals_wf(old(g)),
    ensures
        globals_wf(final(g)),
        ({
            let w = cur(old(g));
            let st = (old(g).value_stacks@[w])@;
            if st.len() > 0 {
                &&& r is Some
                &&& (final(g).value_stacks@[w])@ == st.drop_last()
                &&& (final(g).op_stacks@[w])@ == (old(g).op_stacks@[w])@.push(
                    Operation::RowDelete { table_id: table, key: st.last() },
                )
            } else {
                &&& r is None
                &&& final(g).op_stacks == old(g).op_stacks
                &&& (final(g).value_stacks@[w])@ == st
            }
        }),
        forall|w2: int|
            0 <= w2 < WORKER_SLOTS && w2 != cur(old(g)) ==> final(g).value_stacks@[w2] == old(g).value_stacks@[w2] && final(g).op_stacks@[w2] == old(g).op_stacks@[w2],
        final(g).db == old(g).db,
        final(g).marshal == old(g).marshal,
{
    let key = match pop_from_something_stack(g) {
        Some(v) => v,
        None => {
            return None;
        },
    };
    let w = g.marshal.worker as usize;
    let ops = &mut g.op_stacks[w];
    ops.push(Operation::RowDelete { table_id: table, key });
    Some(())
}

/// Commits the calling worker's queued requests to the database, oldest
/// first, each through the checked dispatch; the queue empties.
pub fn commit_ops(g: &mut Globals)
    requires
        globals_wf(old(g)),
    ensures
        globals_wf(final(g)),
        crate::database::ops_outcome(
            old(g).db,
            (old(g).op_stacks@[cur(old(g))])@,
            final(g).db,
        ),
        final(g).db.tables_view().len() == old(g).db.tables_view().len(),
        (final(g).op_stacks@[cur(old(g))])@ == Seq::<Operation>::empty(),
        forall|w2: int|
            0 <= w2 < WORKER_SLOTS && w2 != cur(old(g)) ==> final(g).op_stacks@[w2] == old(g).op_stacks@[w2],
        final(g).value_stacks == old(g).value_stacks,
        final(g).marshal == old(g).marshal,
{
    let w = g.marshal.worker as usize;
    let mut queue: Vec<Operation> = Vec::new();
    let st = &mut g.op_stacks[w];
    core::mem::swap(st, &mut queue);
    let ghost all = queue@;
    let ghost db0 = g.db;
    let ghost k: int = 0;
    proof {
        assert(all.subrange(0, 0) =~= Seq::<Operation>::empty());
        assert(queue@ =~= all.subrange(0, all.len() as int));
    }
    while queue.len() > 0
        invariant
            0 <= k <= all.len(),
            queue@ == all.subrange(k, all.len() as int),
            g.db.wf(),
            g.db.tables_view().len() == db0.tables_view().len(),
            db0.wf(),
            crate::database::ops_outcome(db0, all.subrange(0, k), g.db),
            g.value_stacks == old(g).value_stacks,
            g.op_stacks@.len() == WORKER_SLOTS,
            forall|w2: int|
                0 <= w2 < WORKER_SLOTS && w2 != cur(old(g)) ==> g.op_stacks@[w2] == old(g).op_stacks@[w2],
            (g.op_stacks@[cur(old(g))])@ == Seq::<Operation>::empty(),
            g.marshal == old(g).marshal,
        decreases queue@.len(),
    {
        let ghost mid = g.db;
        let op = queue.remove(0);
        proof {
            assert(op == all[k]);
            assert(queue@ =~= all.subrange(k + 1, all.len() as int));
        }
        let r = g.db.operation_checked(op);
        proof {
            crate::database::lemma_ops_outcome_snoc(
                db0,
                all.subrange(0, k),
                mid,
                all[k],
                g.db,
                r,
            );
            assert(all.subrange(0, k).push(all[k]) =~= all.subrange(0, k + 1));
        }
        proof {
            k = k + 1;
        }
    }
    proof {
        assert(all.subrange(0, all.len() as int) =~= all);
        assert(all.subrange(k, all.len() as int).len() == 0);
    }
}

/// Pushes a 32-bit integer argument onto the calling worker's scratch
/// stack.
pub fn something_push_i32_to_stack(g: &mut Globals, value: i32)
    requires
        globals_wf(old(g)),
    ensures
        globals_wf(final(g)),
        (final(g).value_stacks@[cur(old(g))])@ == (old(g).value_stacks@[cur(old(g))])@.push(
            Something::Int(value as i64),
        ),
        forall|w2: int|
            0 <= w2 < WORKER_SLOTS && w2 != cur(old(g)) ==> final(g).value_stacks@[w2] == old(g).value_stacks@[w2],
        final(g).db == old(g).db,
        final(g).op_stacks == old(g).op_stacks,
        final(g).marshal == old(g).marshal,
{
    push_to_something_stack(g, Something::Int(value as i64));
}

/// Pushes a float argument, given as its bit pattern, onto the calling
/// worker's scratch stack.
pub fn something_push_f64_bits(g: &mut Globals, bits: u64)
    requires
        globals_wf(old(g)),
    ensures
        globals_wf(final(g)),
        (final(g).value_stacks@[cur(old(g))])@ == (old(g).value_stacks@[cur(old(g))])@.push(
            Something::Float(bits),
        ),
        forall|w2: int|
            0 <= w2 < WORKER_SLOTS && w2 != cur(old(g)) ==> final(g).value_stacks@[w2] == old(g).value_stacks@[w2],
        final(g).db == old(g).db,
        final(g).op_stacks == old(g).op_stacks,
        final(g).marshal == old(g).marshal,
{
    push_to_something_stack(g, Something::Float(bits));
}

/// Reads the staged string, pops the host stack entry that announced it,
/// and pushes the text onto the calling worker's scratch stack.
pub fn something_push_string(g: &mut Globals) -> (r: Option<()>)
    requires
        globals_wf(old(g)),
    ensures
        globals_wf(final(g)),
        r is Some,
        (final(g).value_stacks@[cur(old(g))])@.len() == (old(g).value_stacks@[cur(old(g))])@.len()
            + 1,
        (final(g).value_stacks@[cur(old(g))])@.last()@ == ValView::Text(
            old(g).marshal.string_buffer@,
        ),
        (final(g).value_stacks@[cur(old(g))])@.drop_last() == (old(g).value_stacks@[cur(
            old(g),
        )])@,
        forall|w2: int|
            0 <= w2 < WORKER_SLOTS && w2 != cur(old(g)) ==> final(g).value_stacks@[w2] == old(g).value_stacks@[w2],
        final(g).db == old(g).db,
        final(g).op_stacks == old(g).op_stacks,
        final(g).marshal.stack@ == if old(g).marshal.stack@.len() > 0 {
            old(g).marshal.stack@.drop_last()
        } else {
            old(g).marshal.stack@
        },
        final(g).marshal.string_buffer == old(g).marshal.string_buffer,
        final(g).marshal.blob_buffer == old(g).marshal.blob_buffer,
        final(g).marshal.worker == old(g).marshal.worker,
        final(g).marshal.logs == old(g).marshal.logs,
        final(g).marshal.value_buffer == old(g).marshal.value_buffer,
{
    let len = safe_read_string_length(&g.marshal);
    let mut bytes: Vec<u8> = Vec::new();
    let mut i: usize = 0;
    while i < len
        invariant
            0 <= i <= len,
            len == g.marshal.string_buffer@.len(),
            bytes@ == g.marshal.string_buffer@.subrange(0, i as int),
            g.db == old(g).db,
            g.value_stacks == old(g).value_stacks,
            g.op_stacks == old(g).op_stacks,
            g.marshal == old(g).marshal,
        decreases len - i,
    {
        let b = safe_read_string(&g.marshal, i);
        bytes.push(b);
        proof {
            assert(bytes@ =~= g.marshal.string_buffer@.subrange(0, i + 1));
        }
        i = i + 1;
    }
    proof {
        assert(g.marshal.string_buffer@.subrange(0, len as int) =~= g.marshal.string_buffer@);
    }
    safe_js_pop_stack(&mut g.marshal);
    push_to_something_stack(g, Something::Text(bytes));
    proof {
        assert((final(g).value_stacks@[cur(old(g))])@.drop_last() =~= (old(g).value_stacks@[cur(
            old(g),
        )])@);
    }
    Some(())
}

/// Reads the staged blob, pops the host stack entry that announced it, and
/// pushes the blob onto the calling worker's scratch stack.
pub fn something_push_blob(g: &mut Globals) -> (r: Option<()>)
    requires
        globals_wf(old(g)),
    ensures
        globals_wf(final(g)),
        r is Some,
        (final(g).value_stacks@[cur(old(g))])@.len() == (old(g).value_stacks@[cur(old(g))])@.len()
            + 1,
        (final(g).value_stacks@[cur(old(g))])@.last()@ == ValView::Blob(
            old(g).marshal.blob_buffer@,
        ),
        (final(g).value_stacks@[cur(old(g))])@.drop_last() == (old(g).value_stacks@[cur(
            old(g),
        )])@,
        forall|w2: int|
            0 <= w2 < WORKER_SLOTS && w2 != cur(old(g)) ==> final(g).value_stacks@[w2] == old(g).value_stacks@[w2],
        final(g).db == old(g).db,
        final(g).op_stacks == old(g).op_stacks,
        final(g).marshal.stack@ == if old(g).marshal.stack@.len() > 0 {
            old(g).marshal.stack@.drop_last()
        } else {
            old(g).marshal.stack@
        },
        final(g).marshal.blob_buffer == old(g).marshal.blob_buffer,
        final(g).marshal.string_buffer == old(g).marshal.string_buffer,
        final(g).marshal.worker == old(g).marshal.worker,
        final(g).marshal.logs == old(g).marshal.logs,
        final(g).marshal.value_buffer == old(g).marshal.value_buffer,
{
    let len = safe_read_blob_length(&g.marshal);
    let mut bytes: Vec<u8> = Vec::new();
    let mut i: usize = 0;
    while i < len
        invariant
            0 <= i <= len,
            len == g.marshal.blob_buffer@.len(),
            bytes@ == g.marshal.blob_buffer@.subrange(0, i as int),
            g.db == old(g).db,
            g.value_stacks == old(g).value_stacks,
            g.op_stacks == old(g).op_stacks,
            g.marshal == old(g).marshal,
        decreases len - i,
    {
        let b = safe_read_blob_byte(&g.marshal, i);
        bytes.push(b);
        proof {
            assert(bytes@ =~= g.marshal.blob_buffer@.subrange(0, i + 1));
        }
        i = i + 1;
    }
    proof {
        assert(g.marshal.blob_buffer@.subrange(0, len as int) =~= g.marshal.blob_buffer@);
    }
    safe_js_pop_stack(&mut g.marshal);
    push_to_something_stack(g, Something::Blob(bytes));
    proof {
        assert((final(g).value_stacks@[cur(old(g))])@.drop_last() =~= (old(g).value_stacks@[cur(
            old(g),
        )])@);
    }
    Some(())
}

/// Pushes one value out to the host: scalars onto the host stack, text and
/// blob payloads into their staging buffers.
pub fn add_something_to_js_stack(m: &mut MarshalState, value: &Something)
    ensures
        js_put(*old(m), *final(m), value@),
{
    match value {
        Something::Int(x) => {
            m.stack.push(Something::Int(*x));
            proof {
                assert(vals_view(final(m).stack@) =~= vals_view(old(m).stack@).push(value@));
            }
        },
        Something::Float(b) => {
            m.stack.push(Something::Float(*b));
            proof {
                assert(vals_view(final(m).stack@) =~= vals_view(old(m).stack@).push(value@));
            }
        },
        Something::Float2(b0, b1) => {
            m.stack.push(Something::Float2(*b0, *b1));
            proof {
                assert(vals_view(final(m).stack@) =~= vals_view(old(m).stack@).push(value@));
            }
        },
        Something::Null => {
            safe_push_null(m);
            proof {
                assert(vals_view(final(m).stack@) =~= vals_view(old(m).stack@).push(value@));
            }
        },
        Something::Text(s) => {
            safe_create_string(m);
            let mut i: usize = 0;
            while i < s.len()
                invariant
                    0 <= i <= s@.len(),
                    m.string_buffer@ == s@.subrange(0, i as int),
                    m.stack == old(m).stack,
                    m.blob_buffer == old(m).blob_buffer,
                    m.worker == old(m).worker,
                    m.logs == old(m).logs,
                    m.value_buffer == old(m).value_buffer,
                decreases s@.len() - i,
            {
                safe_push_to_string(m, s[i]);
                proof {
                    assert(m.string_buffer@ =~= s@.subrange(0, i + 1));
                }
                i = i + 1;
            }
            proof {
                assert(s@.subrange(0, s@.len() as int) =~= s@);
            }
        },
        Something::Blob(s) => {
            safe_create_blob(m, s.len());
            let mut i: usize = 0;
            while i < s.len()
                invariant
                    0 <= i <= s@.len(),
                    m.blob_buffer@ == s@.subrange(0, i as int),
                    m.stack == old(m).stack,
                    m.string_buffer == old(m).string_buffer,
                    m.worker == old(m).worker,
                    m.logs == old(m).logs,
                    m.value_buffer == old(m).value_buffer,
                decreases s@.len() - i,
            {
                safe_push_to_blob(m, s[i]);
                proof {
                    assert(m.blob_buffer@ =~= s@.subrange(0, i + 1));
                }
                i = i + 1;
            }
            proof {
                assert(s@.subrange(0, s@.len() as int) =~= s@);
            }
        },
    }
}

/// What pushing a whole sequence of values to the host, first to last,
/// leaves behind.
pub open spec fn js_put_seq(m0: MarshalState, m1: MarshalState, vs: Seq<ValView>) -> bool
    decreases vs.len(),
{
    if vs.len() == 0 {
        m1 == m0
    } else {
        exists|mid: MarshalState|
            #[trigger] js_put(m0, mid, vs[0]) && js_put_seq(mid, m1, vs.drop_first())
    }
}

/// Extending a sequence of pushes by one more.
pub proof fn lemma_js_put_seq_snoc(
    m0: MarshalState,
    m1: MarshalState,
    m2: MarshalState,
    vs: Seq<ValView>,
    v: ValView,
)
    requires
        js_put_seq(m0, m1, vs),
        js_put(m1, m2, v),
    ensures
        js_put_seq(m0, m2, vs.push(v)),
    decreases vs.len(),
{
    if vs.len() == 0 {
        assert(vs.push(v)[0] == v);
        assert(vs.push(v).drop_first() =~= Seq::<ValView>::empty());
        assert(js_put(m0, m2, vs.push(v)[0]));
        assert(js_put_seq(m2, m2, vs.push(v).drop_first()));
    } else {
        let mid = choose|mid: MarshalState|
            #[trigger] js_put(m0, mid, vs[0]) && js_put_seq(mid, m1, vs.drop_first());
        lemma_js_put_seq_snoc(mid, m1, m2, vs.drop_first(), v);
        assert(vs.push(v)[0] == vs[0]);
        assert(vs.push(v).drop_first() =~= vs.drop_first().push(v));
        assert(js_put(m0, mid, vs.push(v)[0]));
    }
}

/// Pops a key off the scratch stack and reads column `col` of the row
/// stored under it in table `table`; the value goes out to the host.
/// Yields `None` — with nothing pushed — when no key was staged, the table
/// id is unknown, or the key has no row.
pub fn table_get_something(g: &mut Globals, table: usize, col: usize) -> (r: Option<()>)
    requires
        globals_wf(old(g)),
    ensures
        globals_wf(final(g)),
        final(g).db == old(g).db,
        final(g).op_stacks == old(g).op_stacks,
        ({
            let w = cur(old(g));
            let st = (old(g).value_stacks@[w])@;
            if st.len() == 0 {
                r is None && stacks_eq(final(g).value_stacks@, old(g).value_stacks@) && final(g).marshal == old(g).marshal
            } else {
                &&& (final(g).value_stacks@[w])@ == st.drop_last()
                &&& (forall|w2: int|
                    0 <= w2 < WORKER_SLOTS && w2 != w ==> final(g).value_stacks@[w2] == old(g).value_stacks@[w2])
                &&& {
                    let key = st.last();
                    if (table as int) < old(g).db.tables_view().len() && crate::content::content_has(
                        old(g).db.tables_view()[table as int].content(),
                        key@,
                    ) {
                        let row = crate::content::content_get(
                            old(g).db.tables_view()[table as int].content(),
                            key@,
                        )->Some_0;
                        r is Some && js_put(
                            old(g).marshal,
                            final(g).marshal,
                            crate::row::row_lookup(row, col as int),
                        )
                    } else {
                        r is None && final(g).marshal == old(g).marshal
                    }
                }
            }
        }),
{
    let key = match pop_from_something_stack(g) {
        Some(v) => v,
        None => {
            return None;
        },
    };
    proof {
        old(g).db.lemma_tables_wf();
    }
    let value = match g.db.get_table(table) {
        Some(t) => {
            match t.get(&key) {
                Some(row) => row.get(col),
                None => {
                    return None;
                },
            }
        },
        None => {
            return None;
        },
    };
    add_something_to_js_stack(&mut g.marshal, &value);
    Some(())
}

/// Pops a key off the scratch stack and pushes every column of the row
/// stored under it out to the host, first column first.
pub fn table_get_row(g: &mut Globals, table: usize) -> (r: Option<()>)
    requires
        globals_wf(old(g)),
    ensures
        globals_wf(final(g)),
        final(g).db == old(g).db,
        final(g).op_stacks == old(g).op_stacks,
        ({
            let w = cur(old(g));
            let st = (old(g).value_stacks@[w])@;
            if st.len() == 0 {
                r is None && stacks_eq(final(g).value_stacks@, old(g).value_stacks@) && final(g).marshal == old(g).marshal
            } else {
                &&& (final(g).value_stacks@[w])@ == st.drop_last()
                &&& (forall|w2: int|
                    0 <= w2 < WORKER_SLOTS && w2 != w ==> final(g).value_stacks@[w2] == old(g).value_stacks@[w2])
                &&& {
                    let key = st.last();
                    if (table as int) < old(g).db.tables_view().len() && crate::content::content_has(
                        old(g).db.tables_view()[table as int].content(),
                        key@,
                    ) {
                        let row = crate::content::content_get(
                            old(g).db.tables_view()[table as int].content(),
                            key@,
                        )->Some_0;
                        r is Some && js_put_seq(old(g).marshal, final(g).marshal, row)
                    } else {
                        r is None && final(g).marshal == old(g).marshal
                    }
                }
            }
        }),
{
    let key = match pop_from_something_stack(g) {
        Some(v) => v,
        None => {
            return None;
        },
    };
    proof {
        old(g).db.lemma_tables_wf();
    }
    let row = match g.db.get_table(table) {
        Some(t) => {
            match t.get(&key) {
                Some(row) => row.clone(),
                None => {
                    return None;
                },
            }
        },
        None => {
            return None;
        },
    };
    let ghost vs_after = g.value_stacks;
    let ghost m0 = g.marshal;
    let ghost rv = row@;
    let n = row.len();
    let mut i: usize = 0;
    proof {
        assert(rv.subrange(0, 0) =~= Seq::<ValView>::empty());
    }
    while i < n
        invariant
            globals_wf(g),
            g.db == old(g).db,
            g.op_stacks == old(g).op_stacks,
            g.value_stacks == vs_after,
            m0 == old(g).marshal,
            rv == row@,
            js_put_seq(m0, g.marshal, rv.subrange(0, i as int)),
            n == row@.len(),
            0 <= i <= n,
        decreases n - i,
    {
        let ghost m1 = g.marshal;
        let v = row.get(i);
        add_something_to_js_stack(&mut g.marshal, &v);
        proof {
            lemma_js_put_seq_snoc(m0, m1, g.marshal, rv.subrange(0, i as int), rv[i as int]);
            assert(rv.subrange(0, i as int).push(rv[i as int]) =~= rv.subrange(0, i + 1));
        }
        i = i + 1;
    }
    proof {
        assert(rv.subrange(0, rv.len() as int) =~= rv);
    }
    Some(())
}

/// Wire tag of a 32-bit integer in the staged value buffer.
pub const WIRE_INT: u8 = 1;

/// Wire tag of a float in the staged value buffer.
pub const WIRE_FLOAT: u8 = 2;

/// Wire tag of a string in the staged value buffer.
pub const WIRE_STRING: u8 = 3;

/// The signed value of a 32-bit two's-complement word, widened.
pub open spec fn spec_i64_of_u32(u: u32) -> i64 {
    if u <= 0x7fffffff {
        u as i64
    } else {
        (u - 0x100000000) as i64
    }
}

/// One wire item at `pos`: a tagged integer, float or string, and the
/// position just past it.
pub open spec fn wire_decode_one(bytes: Seq<u8>, pos: int) -> Option<(ValView, int)> {
    if pos < 0 || pos >= bytes.len() {
        None
    } else if bytes[pos] == WIRE_INT {
        if pos + 5 <= bytes.len() {
            Some(
                (
                    ValView::Int(spec_i64_of_u32(u32_from_le(bytes.subrange(pos + 1, pos + 5)))),
                    pos + 5,
                ),
            )
        } else {
            None
        }
    } else if bytes[pos] == WIRE_FLOAT {
        if pos + 9 <= bytes.len() {
            Some((ValView::Float(u64_from_le(bytes.subrange(pos + 1, pos + 9))), pos + 9))
        } else {
            None
        }
    } else if bytes[pos] == WIRE_STRING {
        if pos + 5 <= bytes.len() {
            let l = u32_from_le(bytes.subrange(pos + 1, pos + 5)) as int;
            if pos + 5 + l <= bytes.len() {
                Some((ValView::Text(bytes.subrange(pos + 5, pos + 5 + l)), pos + 5 + l))
            } else {
                None
            }
        } else {
            None
        }
    } else {
        None
    }
}

/// `n` consecutive wire items from `pos`.
pub open spec fn wire_decode_items(bytes: Seq<u8>, pos: int, n: int) -> Option<(Seq<ValView>, int)>
    decreases n,
{
    if n <= 0 {
        Some((Seq::<ValView>::empty(), pos))
    } else {
        match wire_decode_one(bytes, pos) {
            Some((v, p2)) => match wire_decode_items(bytes, p2, n - 1) {
                Some((vs, pe)) => Some((seq![v] + vs, pe)),
                None => None,
            },
            None => None,
        }
    }
}

/// A whole staged value buffer: a 32-bit count, then that many items.
pub open spec fn wire_decode(bytes: Seq<u8>) -> Option<Seq<ValView>> {
    if bytes.len() >= 4 {
        match wire_decode_items(bytes, 4, u32_from_le(bytes.subrange(0, 4)) as int) {
            Some((vs, _)) => Some(vs),
            None => None,
        }
    } else {
        None
    }
}

/// Reads a 32-bit little-endian word out of a byte vector.
fn read_u32_at(v: &Vec<u8>, pos: usize) -> (r: u32)
    requires
        pos + 4 <= v@.len(),
    ensures
        r == u32_from_le(v@.subrange(pos as int, pos as int + 4)),
{
    let n = v.len();
    let r = (v[pos] as u32) | ((v[pos + 1] as u32) << 8) | ((v[pos + 2] as u32) << 16) | ((v[pos
        + 3] as u32) << 24);
    proof {
        let s = v@.subrange(pos as int, pos as int + 4);
        assert(s[0] == v@[pos as int] && s[1] == v@[pos as int + 1] && s[2] == v@[pos as int + 2]
            && s[3] == v@[pos as int + 3]);
    }
    r
}

/// Reads a 64-bit little-endian word out of a byte vector.
fn read_u64_at(v: &Vec<u8>, pos: usize) -> (r: u64)
    requires
        pos + 8 <= v@.len(),
    ensures
        r == u64_from_le(v@.subrange(pos as int, pos as int + 8)),
{
    let n = v.len();
    let r = (v[pos] as u64) | ((v[pos + 1] as u64) << 8) | ((v[pos + 2] as u64) << 16) | ((v[pos
        + 3] as u64) << 24) | ((v[pos + 4] as u64) << 32) | ((v[pos + 5] as u64) << 40) | ((v[pos
        + 6] as u64) << 48) | ((v[pos + 7] as u64) << 56);
    proof {
        let s = v@.subrange(pos as int, pos as int + 8);
        assert(s[0] == v@[pos as int] && s[1] == v@[pos as int + 1] && s[2] == v@[pos as int + 2]
            && s[3] == v@[pos as int + 3] && s[4] == v@[pos as int + 4] && s[5] == v@[pos as int
            + 5] && s[6] == v@[pos as int + 6] && s[7] == v@[pos as int + 7]);
    }
    r
}

/// Copies `len` bytes starting at `start` out of a byte vector.
fn copy_range(v: &Vec<u8>, start: usize, len: usize) -> (r: Vec<u8>)
    requires
        start + len <= v@.len(),
    ensures
        r@ == v@.subrange(start as int, start as int + len),
{
    let mut r: Vec<u8> = Vec::new();
    let mut i: usize = 0;
    while i < len
        invariant
            0 <= i <= len,
            start + len <= v@.len(),
            r@ == v@.subrange(start as int, start as int + i),
        decreases len - i,
    {
        let n = v.len();
        r.push(v[start + i]);
        proof {
            assert(r@ =~= v@.subrange(start as int, start as int + i + 1));
        }
        i = i + 1;
    }
    r
}

/// Decodes the staged value buffer — a 32-bit count followed by tagged
/// integers, floats and strings — and replaces the calling worker's
/// scratch stack with the decoded values, oldest first. The staged buffer
/// is consumed either way; a malformed buffer leaves the stack alone.
pub fn read_from_value_buffer(g: &mut Globals) -> (r: Option<()>)
    requires
        globals_wf(old(g)),
    ensures
        globals_wf(final(g)),
        final(g).db == old(g).db,
        final(g).op_stacks == old(g).op_stacks,
        final(g).marshal.value_buffer@ == Seq::<u8>::empty(),
        final(g).marshal.stack == old(g).marshal.stack,
        final(g).marshal.string_buffer == old(g).marshal.string_buffer,
        final(g).marshal.blob_buffer == old(g).marshal.blob_buffer,
        final(g).marshal.worker == old(g).marshal.worker,
        final(g).marshal.logs == old(g).marshal.logs,
        match wire_decode(old(g).marshal.value_buffer@) {
            Some(vs) => r is Some && vals_view((final(g).value_stacks@[cur(old(g))])@) == vs
                && (forall|w2: int|
                0 <= w2 < WORKER_SLOTS && w2 != cur(old(g)) ==> final(g).value_stacks@[w2]
                    == old(g).value_stacks@[w2]),
            None => r is None && final(g).value_stacks == old(g).value_stacks,
        },
{
    let mut wire: Vec<u8> = Vec::new();
    core::mem::swap(&mut g.marshal.value_buffer, &mut wire);
    let ghost bytes = wire@;
    if wire.len() < 4 {
        return None;
    }
    let count32 = read_u32_at(&wire, 0);
    proof {
        assert(bytes.subrange(0, 4) =~= wire@.subrange(0, 4));
    }
    let count = count32 as usize;
    let ghost total = wire_decode_items(bytes, 4, count as int);
    let mut out: Vec<Something> = Vec::new();
    let mut pos: usize = 4;
    let mut i: usize = 0;
    proof {
        assert(vals_view(out@) =~= Seq::<ValView>::empty());
        assert(match wire_decode_items(bytes, pos as int, (count - i) as int) {
            Some((vs, pe)) => total == Some((vals_view(out@) + vs, pe)),
            None => total is None,
        }) by {
            if wire_decode_items(bytes, 4, count as int) is Some {
                let (vs, pe) = wire_decode_items(bytes, 4, count as int)->Some_0;
                assert(vals_view(out@) + vs =~= vs);
            }
        }
    }
    while i < count
        invariant
            globals_wf(g),
            0 <= i <= count,
            4 <= pos <= bytes.len(),
            bytes == wire@,
            bytes == old(g).marshal.value_buffer@,
            bytes.len() >= 4,
            wire@.len() <= usize::MAX,
            count as int == u32_from_le(bytes.subrange(0, 4)) as int,
            total == wire_decode_items(bytes, 4, count as int),
            match wire_decode_items(bytes, pos as int, (count - i) as int) {
                Some((vs, pe)) => total == Some((vals_view(out@) + vs, pe)),
                None => total is None,
            },
            g.db == old(g).db,
            g.op_stacks == old(g).op_stacks,
            g.value_stacks == old(g).value_stacks,
            g.marshal.value_buffer@ == Seq::<u8>::empty(),
            g.marshal.stack == old(g).marshal.stack,
            g.marshal.string_buffer == old(g).marshal.string_buffer,
            g.marshal.blob_buffer == old(g).marshal.blob_buffer,
            g.marshal.worker == old(g).marshal.worker,
            g.marshal.logs == old(g).marshal.logs,
        decreases count - i,
    {
        let ghost m = (count - i) as int;
        let ghost out0 = out@;
        let ghost pos0 = pos as int;
        if pos >= wire.len() {
            proof {
                assert(wire_decode_one(bytes, pos as int) is None);
            }
            return None;
        }
        let tag = wire[pos];
        if tag == WIRE_INT {
            if wire.len() - pos < 5 {
                proof {
                    assert(wire_decode_one(bytes, pos as int) is None);
                }
                return None;
            }
            let u = read_u32_at(&wire, pos + 1);
            let value: i64 = if u <= 0x7fffffff {
                u as i64
            } else {
                (u as i64) - 0x100000000
            };
            out.push(Something::Int(value));
            proof {
                assert(wire_decode_one(bytes, pos as int) == Some(
                    (ValView::Int(value), pos as int + 5),
                ));
            }
            pos = pos + 5;
        } else if tag == WIRE_FLOAT {
            if wire.len() - pos < 9 {
                proof {
                    assert(wire_decode_one(bytes, pos as int) is None);
                }
                return None;
            }
            let bits = read_u64_at(&wire, pos + 1);
            out.push(Something::Float(bits));
            proof {
                assert(wire_decode_one(bytes, pos as int) == Some(
                    (ValView::Float(bits), pos as int + 9),
                ));
            }
            pos = pos + 9;
        } else if tag == WIRE_STRING {
            if wire.len() - pos < 5 {
                proof {
                    assert(wire_decode_one(bytes, pos as int) is None);
                }
                return None;
            }
            let l32 = read_u32_at(&wire, pos + 1);
            let l = l32 as usize;
            if wire.len() - (pos + 5) < l {
                proof {
                    assert(wire_decode_one(bytes, pos as int) is None);
                }
                return None;
            }
            let strbytes = copy_range(&wire, pos + 5, l);
            out.push(Something::Text(strbytes));
            proof {
                assert(wire_decode_one(bytes, pos as int) == Some(
                    (
                        ValView::Text(bytes.subrange(pos as int + 5, pos as int + 5 + l)),
                        pos as int + 5 + l,
                    ),
                ));
            }
            pos = pos + 5 + l;
        } else {
            proof {
                assert(wire_decode_one(bytes, pos as int) is None);
            }
            return None;
        }
        proof {
            let v = out@.last()@;
            assert(wire_decode_one(bytes, pos0) == Some((v, pos as int)));
            assert(vals_view(out@) =~= vals_view(out0).push(v));
            match wire_decode_items(bytes, pos as int, m - 1) {
                Some((vs2, pe)) => {
                    assert(wire_decode_items(bytes, pos0, m) == Some((seq![v] + vs2, pe)));
                    assert(vals_view(out0) + (seq![v] + vs2) =~= vals_view(out@) + vs2);
                },
                None => {
                    assert(wire_decode_items(bytes, pos0, m) is None);
                },
            }
        }
        i = i + 1;
    }
    proof {
        assert(wire_decode_items(bytes, pos as int, 0) == Some(
            (Seq::<ValView>::empty(), pos as int),
        ));
        let (vs, pe) = total->Some_0;
        assert(vals_view(out@) + Seq::<ValView>::empty() =~= vals_view(out@));
    }
    let w = g.marshal.worker as usize;
    let st = &mut g.value_stacks[w];
    core::mem::swap(st, &mut out);
    Some(())
}

} // verus!
