use terminox::config::AuthMethod;
use terminox::session::{
    agent_step, fold_session_command, BatchEnd, judge_auth, session_event_name, AgentStep, AuthFailure,
    ChannelEvent, CommandBatch, OutputBuffer, Received, SessionCommand, SessionEnd,
    SessionEventKind, OUTPUT_FLUSH_BYTES, WRITE_BATCH_LIMIT,
};

#[test]
fn fold_accumulates_writes_last_resize_wins() {
    let mut buf = Vec::new();
    let mut resize = None;
    let mut disc = false;
    fold_session_command(SessionCommand::Write(b"ab".to_vec()), &mut buf, &mut resize, &mut disc);
    fold_session_command(SessionCommand::Resize { cols: 80, rows: 24 }, &mut buf, &mut resize, &mut disc);
    fold_session_command(SessionCommand::Write(b"c".to_vec()), &mut buf, &mut resize, &mut disc);
    fold_session_command(SessionCommand::Resize { cols: 100, rows: 30 }, &mut buf, &mut resize, &mut disc);
    assert_eq!(buf, b"abc");
    assert_eq!(resize, Some((100, 30)));
    assert!(!disc);
    fold_session_command(SessionCommand::Disconnect, &mut buf, &mut resize, &mut disc);
    assert!(disc);
    assert_eq!(buf, b"abc");
}

#[test]
fn batch_stops_at_write_limit_and_on_disconnect() {
    let mut b = CommandBatch::start(SessionCommand::Write(vec![0; WRITE_BATCH_LIMIT - 1]));
    assert!(b.wants_more());
    assert!(!b.receive(Received::Command(SessionCommand::Write(vec![1]))));
    assert_eq!(b.write_buf.len(), WRITE_BATCH_LIMIT);
    let mut c = CommandBatch::start(SessionCommand::Resize { cols: 1, rows: 2 });
    assert!(c.receive(Received::Command(SessionCommand::Write(vec![7]))));
    assert!(!c.receive(Received::Empty));
    assert!(!c.should_disconnect);
    assert!(!c.receive(Received::Disconnected));
    assert!(c.should_disconnect);
    assert!(!c.wants_more());
    let d = CommandBatch::start(SessionCommand::Disconnect);
    assert!(!d.wants_more());
}

#[test]
fn output_buffer_batches_and_flushes() {
    let mut o = OutputBuffer::new();
    let r = o.on_channel_event(ChannelEvent::Data(b"hi".to_vec()));
    assert!(r.arm_deadline && r.flush.is_none() && r.end.is_none());
    let r = o.on_channel_event(ChannelEvent::ExtendedData(b"!".to_vec()));
    assert!(!r.arm_deadline && r.flush.is_none());
    assert_eq!(o.flush(), Some(b"hi!".to_vec()));
    assert!(!o.deadline_armed);
    assert_eq!(o.flush(), None);
    let r = o.on_channel_event(ChannelEvent::Data(vec![b'x'; OUTPUT_FLUSH_BYTES]));
    assert!(r.arm_deadline);
    assert_eq!(r.flush.map(|v| v.len()), Some(OUTPUT_FLUSH_BYTES));
    assert!(o.buf.is_empty() && !o.deadline_armed);
    o.on_channel_event(ChannelEvent::Data(b"tail".to_vec()));
    let r = o.on_channel_event(ChannelEvent::ExitStatus(3));
    assert_eq!(r.flush, Some(b"tail".to_vec()));
    assert_eq!(r.end, Some(SessionEnd::Exit(3)));
    let r = o.on_channel_event(ChannelEvent::Eof);
    assert_eq!(r.flush, None);
    assert_eq!(r.end, Some(SessionEnd::Eof));
    assert_eq!(o.on_channel_event(ChannelEvent::Closed).end, Some(SessionEnd::Closed));
    assert!(o.on_channel_event(ChannelEvent::Other).end.is_none());
}

#[test]
fn event_names() {
    assert_eq!(session_event_name(SessionEventKind::Data, "s1"), "ssh-data-s1");
    assert_eq!(session_event_name(SessionEventKind::Closed, "s1"), "ssh-closed-s1");
    assert_eq!(session_event_name(SessionEventKind::Exit, "s1"), "ssh-exit-s1");
    assert_eq!(session_event_name(SessionEventKind::Eof, "s1"), "ssh-eof-s1");
}

#[test]
fn auth_judgement() {
    let pw = AuthMethod::Password { password: "x".into() };
    let key = AuthMethod::Key { key_path: "k".into(), passphrase: None };
    assert_eq!(judge_auth(&pw, true), Ok(()));
    assert_eq!(judge_auth(&pw, false), Err(AuthFailure::PasswordRejected));
    assert_eq!(judge_auth(&key, false), Err(AuthFailure::PublicKeyRejected));
}

#[test]
fn agent_steps() {
    assert_eq!(agent_step(0, 0, false), AgentStep::Fail(AuthFailure::AgentHasNoKeys));
    assert_eq!(agent_step(2, 0, false), AgentStep::Offer(0));
    assert_eq!(agent_step(2, 1, false), AgentStep::Offer(1));
    assert_eq!(agent_step(2, 1, true), AgentStep::Done);
    assert_eq!(agent_step(2, 2, false), AgentStep::Fail(AuthFailure::AgentKeysRejected));
}

#[test]
fn batch_settlement() {
    let b = CommandBatch::start(SessionCommand::Resize { cols: 9, rows: 4 });
    let p = b.settle(false);
    assert_eq!(p.resize, Some((9, 4)));
    assert_eq!(p.end, None);
    let p = b.settle(true);
    assert_eq!(p.resize, None);
    assert_eq!(p.end, Some(BatchEnd::SendFailed));
    let mut d = CommandBatch::start(SessionCommand::Resize { cols: 1, rows: 1 });
    d.receive(Received::Command(SessionCommand::Disconnect));
    let p = d.settle(false);
    assert_eq!(p.resize, Some((1, 1)));
    assert_eq!(p.end, Some(BatchEnd::Disconnect));
}

#[test]
fn terminal_event_stops_flush_timer() {
    let mut o = OutputBuffer::new();
    o.on_channel_event(ChannelEvent::Data(b"x".to_vec()));
    assert!(o.deadline_armed);
    o.on_channel_event(ChannelEvent::Eof);
    assert!(!o.deadline_armed);
}

#[test]
fn folding_a_sequence_of_commands() {
    let mut buf = b"0".to_vec();
    let mut resize = Some((1, 1));
    let mut disc = false;
    for c in [
        SessionCommand::Write(b"a".to_vec()),
        SessionCommand::Disconnect,
        SessionCommand::Write(b"bc".to_vec()),
    ] {
        fold_session_command(c, &mut buf, &mut resize, &mut disc);
    }
    assert_eq!(buf, b"0abc");
    assert_eq!(resize, Some((1, 1)));
    assert!(disc);
}

#[test]
fn batches_write_in_order_however_split() {
    let cmds = || vec![
        SessionCommand::Write(b"ab".to_vec()),
        SessionCommand::Resize { cols: 80, rows: 24 },
        SessionCommand::Write(b"c".to_vec()),
        SessionCommand::Write(b"de".to_vec()),
    ];
    let mut whole = Vec::new();
    let mut batch = CommandBatch::start(SessionCommand::Write(Vec::new()));
    for c in cmds() {
        batch.receive(Received::Command(c));
    }
    whole.extend_from_slice(&batch.write_buf);
    let mut split = Vec::new();
    let mut it = cmds().into_iter();
    let mut first = CommandBatch::start(it.next().unwrap());
    first.receive(Received::Empty);
    split.extend_from_slice(&first.write_buf);
    let mut second = CommandBatch::start(it.next().unwrap());
    for c in it {
        second.receive(Received::Command(c));
    }
    split.extend_from_slice(&second.write_buf);
    assert_eq!(whole, b"abcde".to_vec());
    assert_eq!(split, whole);
    assert_eq!(second.pending_resize, Some((80, 24)));
}
