//! Connection bookkeeping for the completion-queue event loop.
//!
//! Each submitted operation carries its kind and connection slot packed
//! into one 64-bit tag. A slot records whether it is in use, how many
//! request bytes have arrived, and how much of the chosen response has
//! been sent; the functions here decide, from a completion's result, what
//! the loop does next. The loop itself, the buffers and the system calls
//! live with the caller.
use vstd::prelude::*;

verus! {

/// Size of a connection's request buffer.
pub const REQ_BUF_SIZE: usize = 16384;

pub const OP_ACCEPT: u64 = 1;
pub const OP_READ: u64 = 2;
pub const OP_WRITE: u64 = 3;

pub open spec fn pack_spec(op: u64, idx: u32) -> u64 {
    (op << 48u64) | (idx as u64 & 0xFFFF_FFFFu64)
}

/// The tag for operation `op` on slot `idx`.
pub fn pack(op: u64, idx: u32) -> (r: u64)
    ensures
        r == pack_spec(op, idx),
{
    (op << 48u64) | (idx as u64 & 0xFFFF_FFFFu64)
}

/// The operation kind of a tag.
pub fn unpack_op(ud: u64) -> (r: u64)
    ensures
        r == ud >> 48u64,
{
    ud >> 48u64
}

/// The connection slot of a tag.
pub fn unpack_idx(ud: u64) -> (r: u32)
    ensures
        r == (ud & 0xFFFF_FFFFu64) as u32,
{
    (ud & 0xFFFF_FFFFu64) as u32
}

/// Unpacking a tag gives back the operation kind (when it fits in 16
/// bits) and the slot it was packed with.
pub proof fn lemma_pack_roundtrip(op: u64, idx: u32)
    requires
        op < 65536,
    ensures
        pack_spec(op, idx) >> 48u64 == op,
        (pack_spec(op, idx) & 0xFFFF_FFFFu64) as u32 == idx,
{
    let i = idx as u64;
    assert(i <= 0xFFFF_FFFFu64);
    assert((((op << 48u64) | (i & 0xFFFF_FFFFu64)) >> 48u64) == op) by (bit_vector)
        requires
            op < 65536,
            i <= 0xFFFF_FFFFu64,
    ;
    assert((((op << 48u64) | (i & 0xFFFF_FFFFu64)) & 0xFFFF_FFFFu64) == i) by (bit_vector)
        requires
            op < 65536,
            i <= 0xFFFF_FFFFu64,
    ;
}

/// What a completion, by its tag, is about.
#[derive(Debug, Clone, Copy, PartialEq, Eq, Structural)]
pub enum Completion {
    /// An accepted connection (or a failed accept).
    Accept,
    /// A receive on this slot.
    Read(usize),
    /// A send on this slot.
    Write(usize),
    /// A receive or send naming no slot of the table, or an unknown kind:
    /// nothing to do.
    Stale,
}

/// Sort a completion by its tag `ud`, for a table of `n_conns` slots.
pub fn classify(ud: u64, n_conns: usize) -> (r: Completion)
    ensures
        ud >> 48u64 == OP_ACCEPT ==> r == Completion::Accept,
        ud >> 48u64 == OP_READ ==> r == (if ((ud & 0xFFFF_FFFFu64) as u32) < n_conns {
            Completion::Read(((ud & 0xFFFF_FFFFu64) as u32) as usize)
        } else {
            Completion::Stale
        }),
        ud >> 48u64 == OP_WRITE ==> r == (if ((ud & 0xFFFF_FFFFu64) as u32) < n_conns {
            Completion::Write(((ud & 0xFFFF_FFFFu64) as u32) as usize)
        } else {
            Completion::Stale
        }),
        ud >> 48u64 != OP_ACCEPT && ud >> 48u64 != OP_READ && ud >> 48u64 != OP_WRITE ==> r
            == Completion::Stale,
{
    let op = unpack_op(ud);
    let idx = unpack_idx(ud) as usize;
    if op == OP_ACCEPT {
        Completion::Accept
    } else if op == OP_READ {
        if idx < n_conns {
            Completion::Read(idx)
        } else {
            Completion::Stale
        }
    } else if op == OP_WRITE {
        if idx < n_conns {
            Completion::Write(idx)
        } else {
            Completion::Stale
        }
    } else {
        Completion::Stale
    }
}

/// The state of one connection slot.
#[derive(Debug, Clone, Copy)]
pub struct Conn {
    pub fd: i32,
    pub in_use: bool,
    pub close_after_write: bool,
    pub req_len: usize,
    pub res_len: usize,
    pub res_sent: usize,
}

/// A free slot.
pub open spec fn free_slot() -> Conn {
    Conn { fd: -1i32, in_use: false, close_after_write: false, req_len: 0, res_len: 0, res_sent: 0 }
}

/// A slot just given to descriptor `fd`.
pub open spec fn fresh_slot(fd: i32) -> Conn {
    Conn { fd: fd, in_use: true, close_after_write: false, req_len: 0usize, res_len: 0usize, res_sent: 0usize }
}

/// A free slot, as the table starts.
pub fn empty_conn() -> (c: Conn)
    ensures
        c == free_slot(),
{
    Conn { fd: -1, in_use: false, close_after_write: false, req_len: 0, res_len: 0, res_sent: 0 }
}

/// Give the first free slot to `fd`; none when every slot is in use.
pub fn alloc_conn(conns: &mut Vec<Conn>, fd: i32) -> (r: Option<usize>)
    ensures
        match r {
            Some(i) => {
                &&& i < old(conns)@.len()
                &&& !old(conns)@[i as int].in_use
                &&& forall|k: int| 0 <= k < i ==> #[trigger] old(conns)@[k].in_use
                &&& final(conns)@ == old(conns)@.update(i as int, fresh_slot(fd))
            },
            None => {
                &&& forall|k: int| 0 <= k < old(conns)@.len() ==> #[trigger] old(conns)@[k].in_use
                &&& final(conns)@ == old(conns)@
            },
        },
{
    let mut i: usize = 0;
    while i < conns.len()
        invariant
            conns@ == old(conns)@,
            i <= conns@.len(),
            forall|k: int| 0 <= k < i ==> #[trigger] conns@[k].in_use,
        decreases conns@.len() - i,
    {
        if !conns[i].in_use {
            conns.set(
                i,
                Conn {
                    fd,
                    in_use: true,
                    close_after_write: false,
                    req_len: 0,
                    res_len: 0,
                    res_sent: 0,
                },
            );
            return Some(i);
        }
        i += 1;
    }
    None
}

/// Release a slot; the descriptor to close, when the slot was in use.
pub fn free_conn(c: &mut Conn) -> (closed: Option<i32>)
    ensures
        old(c).in_use ==> closed == Some(old(c).fd) && *final(c) == free_slot(),
        !old(c).in_use ==> closed is None && *final(c) == *old(c),
{
    if !c.in_use {
        return None;
    }
    let fd = c.fd;
    *c = Conn { fd: -1, in_use: false, close_after_write: false, req_len: 0, res_len: 0, res_sent: 0 };
    Some(fd)
}

/// Whether another receive may be posted: the buffer still has room
/// beyond its final byte.
pub fn wants_read(c: &Conn) -> (r: bool)
    ensures
        r == (c.req_len < REQ_BUF_SIZE - 1),
{
    c.req_len < REQ_BUF_SIZE - 1
}

/// Whether a send is still owed.
pub fn wants_write(c: &Conn) -> (r: bool)
    ensures
        r == (c.res_sent < c.res_len),
{
    c.res_sent < c.res_len
}

/// What a receive completion leads to.
#[derive(Debug, Clone, Copy, PartialEq, Eq, Structural)]
pub enum ReadStep {
    /// The slot is not in use: nothing to do.
    Ignore,
    /// The peer closed or the receive failed: release the slot.
    Close,
    /// Examine the first `len` request bytes; `is_full` says the buffer
    /// cannot take more.
    Process(usize, bool),
}

/// Account a receive completion with result `res`.
pub fn on_read(c: &mut Conn, res: i32) -> (step: ReadStep)
    requires
        old(c).in_use && res > 0 ==> old(c).req_len + res <= REQ_BUF_SIZE,
    ensures
        !old(c).in_use ==> step == ReadStep::Ignore && *final(c) == *old(c),
        old(c).in_use && res <= 0 ==> step == ReadStep::Close && *final(c) == *old(c),
        old(c).in_use && res > 0 ==> step == ReadStep::Process(
            (old(c).req_len + res) as usize,
            old(c).req_len + res >= REQ_BUF_SIZE - 1,
        ) && *final(c) == (Conn { req_len: (old(c).req_len + res) as usize, ..*old(c) }),
{
    if !c.in_use {
        return ReadStep::Ignore;
    }
    if res <= 0 {
        return ReadStep::Close;
    }
    c.req_len += res as usize;
    let n = c.req_len;
    ReadStep::Process(n, n >= REQ_BUF_SIZE - 1)
}

/// Start sending a response of `len` bytes, closing after it when `close`.
pub fn start_response(c: &mut Conn, len: usize, close: bool)
    ensures
        *final(c) == (Conn { res_len: len, res_sent: 0, close_after_write: close, ..*old(c) }),
{
    c.res_len = len;
    c.res_sent = 0;
    c.close_after_write = close;
}

/// What a send completion leads to.
#[derive(Debug, Clone, Copy, PartialEq, Eq, Structural)]
pub enum WriteStep {
    /// The slot is not in use: nothing to do.
    Ignore,
    /// The send failed, or the response is out and the connection closes:
    /// release the slot.
    Close,
    /// Part of the response is still owed: send the rest.
    Continue,
    /// The response is out and the connection stays: the slot is reset for
    /// the next request; post a receive.
    KeepAlive,
}

/// Account a send completion with result `res`.
pub fn on_write(c: &mut Conn, res: i32) -> (step: WriteStep)
    requires
        old(c).in_use && res > 0 ==> old(c).res_sent + res <= usize::MAX,
    ensures
        !old(c).in_use ==> step == WriteStep::Ignore && *final(c) == *old(c),
        old(c).in_use && res <= 0 ==> step == WriteStep::Close && *final(c) == *old(c),
        old(c).in_use && res > 0 ==> {
            let sent = old(c).res_sent + res;
            &&& sent < old(c).res_len ==> step == WriteStep::Continue && *final(c) == (Conn {
                res_sent: sent as usize,
                ..*old(c)
            })
            &&& sent >= old(c).res_len && old(c).close_after_write ==> step == WriteStep::Close
                && *final(c) == (Conn { res_sent: sent as usize, ..*old(c) })
            &&& sent >= old(c).res_len && !old(c).close_after_write ==> step == WriteStep::KeepAlive
                && *final(c) == (Conn {
                req_len: 0,
                res_len: 0,
                res_sent: 0,
                close_after_write: false,
                ..*old(c)
            })
        },
{
    if !c.in_use {
        return WriteStep::Ignore;
    }
    if res <= 0 {
        return WriteStep::Close;
    }
    c.res_sent += res as usize;
    if c.res_sent < c.res_len {
        WriteStep::Continue
    } else if c.close_after_write {
        WriteStep::Close
    } else {
        c.req_len = 0;
        c.res_len = 0;
        c.res_sent = 0;
        c.close_after_write = false;
        WriteStep::KeepAlive
    }
}

}
