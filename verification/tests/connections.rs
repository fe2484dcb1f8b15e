use sketchy::conn::{
    alloc_conn, classify, empty_conn, free_conn, on_read, on_write, pack, start_response,
    unpack_idx, unpack_op, wants_read, wants_write, Completion, ReadStep, WriteStep, OP_ACCEPT,
    OP_READ, OP_WRITE, REQ_BUF_SIZE,
};

#[test]
fn tags_round_trip() {
    for &op in [OP_ACCEPT, OP_READ, OP_WRITE].iter() {
        for &idx in [0u32, 1, 1023, u32::MAX].iter() {
            let ud = pack(op, idx);
            assert_eq!(unpack_op(ud), op);
            assert_eq!(unpack_idx(ud), idx);
        }
    }
    assert_eq!(pack(2, 5), (2u64 << 48) | 5);
}

#[test]
fn completions_by_tag() {
    assert_eq!(classify(pack(OP_ACCEPT, 77), 4), Completion::Accept);
    assert_eq!(classify(pack(OP_READ, 3), 4), Completion::Read(3));
    assert_eq!(classify(pack(OP_READ, 4), 4), Completion::Stale);
    assert_eq!(classify(pack(OP_WRITE, 0), 4), Completion::Write(0));
    assert_eq!(classify(pack(OP_WRITE, 9), 4), Completion::Stale);
    assert_eq!(classify(pack(9, 0), 4), Completion::Stale);
    assert_eq!(classify(0, 4), Completion::Stale);
}

#[test]
fn slots_are_given_first_free() {
    let mut conns = vec![empty_conn(); 3];
    assert_eq!(alloc_conn(&mut conns, 10), Some(0));
    assert_eq!(alloc_conn(&mut conns, 11), Some(1));
    assert_eq!(alloc_conn(&mut conns, 12), Some(2));
    assert_eq!(alloc_conn(&mut conns, 13), None);
    assert_eq!(conns[1].fd, 11);
    assert!(conns[1].in_use);
    assert_eq!(free_conn(&mut conns[1]), Some(11));
    assert!(!conns[1].in_use);
    assert_eq!(conns[1].fd, -1);
    // Freeing twice closes nothing.
    assert_eq!(free_conn(&mut conns[1]), None);
    assert_eq!(alloc_conn(&mut conns, 14), Some(1));
    assert_eq!(conns[1].fd, 14);
    assert_eq!(conns[1].req_len, 0);
}

#[test]
fn receive_accounting() {
    let mut conns = vec![empty_conn(); 1];
    let mut idle = conns[0];
    assert_eq!(on_read(&mut idle, 5), ReadStep::Ignore);
    alloc_conn(&mut conns, 3);
    let c = &mut conns[0];
    assert_eq!(on_read(c, 0), ReadStep::Close);
    assert_eq!(on_read(c, -104), ReadStep::Close);
    assert_eq!(on_read(c, 100), ReadStep::Process(100, false));
    assert_eq!(on_read(c, 50), ReadStep::Process(150, false));
    assert_eq!(c.req_len, 150);
    assert!(wants_read(c));
    let rest = (REQ_BUF_SIZE - 1 - 150) as i32;
    assert_eq!(on_read(c, rest), ReadStep::Process(REQ_BUF_SIZE - 1, true));
    assert!(!wants_read(c));
}

#[test]
fn send_accounting() {
    let mut conns = vec![empty_conn(); 1];
    alloc_conn(&mut conns, 3);
    let c = &mut conns[0];
    c.req_len = 40;
    start_response(c, 100, false);
    assert!(wants_write(c));
    assert_eq!(on_write(c, 60), WriteStep::Continue);
    assert_eq!(c.res_sent, 60);
    assert_eq!(on_write(c, 40), WriteStep::KeepAlive);
    assert_eq!((c.req_len, c.res_len, c.res_sent), (0, 0, 0));
    assert!(!wants_write(c));
    start_response(c, 10, true);
    assert_eq!(on_write(c, 10), WriteStep::Close);
    start_response(c, 10, false);
    assert_eq!(on_write(c, -32), WriteStep::Close);
    let mut idle = empty_conn();
    assert_eq!(on_write(&mut idle, 10), WriteStep::Ignore);
}
