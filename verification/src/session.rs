//! Decisions of an interactive SSH session: who the client is talking to,
//! how authentication results are judged, how queued input is batched and
//! how output is buffered before it reaches the user interface.
use vstd::prelude::*;

use crate::config::{AuthMethod, ServerConfig};

verus! {

/// The endpoint whose host key the client checks.
#[derive(Debug, Clone)]
pub struct ClientHandler {
    pub host: String,
    pub port: u16,
}

impl ClientHandler {
    /// The handler for connections to `config`'s server.
    pub fn for_server(config: &ServerConfig) -> (h: Self)
        ensures
            h.host@ == config.host@,
            h.port == config.port,
    {
        ClientHandler { host: config.host.clone(), port: config.port }
    }
}

/// Why authentication failed after the server answered.
#[derive(Debug, Clone, Copy, PartialEq, Eq, Structural)]
pub enum AuthFailure {
    PasswordRejected,
    PublicKeyRejected,
    AgentHasNoKeys,
    AgentKeysRejected,
}

/// The outcome of a password or public-key attempt the server answered
/// with `accepted`.
pub fn judge_auth(method: &AuthMethod, accepted: bool) -> (r: Result<(), AuthFailure>)
    requires
        !(method is Agent),
    ensures
        accepted ==> r == Ok::<(), AuthFailure>(()),
        !accepted && method is Password ==> r == Err::<(), AuthFailure>(AuthFailure::PasswordRejected),
        !accepted && method is Key ==> r == Err::<(), AuthFailure>(AuthFailure::PublicKeyRejected),
{
    if accepted {
        Ok(())
    } else {
        match method {
            AuthMethod::Password { .. } => Err(AuthFailure::PasswordRejected),
            _ => Err(AuthFailure::PublicKeyRejected),
        }
    }
}

/// What agent authentication does next.
#[derive(Debug, Clone, Copy, PartialEq, Eq, Structural)]
pub enum AgentStep {
    /// Offer the identity at this index.
    Offer(usize),
    /// The last offer was accepted.
    Done,
    /// Give up.
    Fail(AuthFailure),
}

/// The next step of agent authentication, with `identities` keys in the
/// agent, `offered` of them offered so far, and `last_accepted` telling
/// whether the last offer was accepted.
pub fn agent_step(identities: usize, offered: usize, last_accepted: bool) -> (s: AgentStep)
    requires
        offered <= identities,
    ensures
        identities == 0 ==> s == AgentStep::Fail(AuthFailure::AgentHasNoKeys),
        identities > 0 && offered > 0 && last_accepted ==> s == AgentStep::Done,
        identities > 0 && (offered == 0 || !last_accepted) && offered < identities ==> s
            == AgentStep::Offer(offered),
        identities > 0 && offered > 0 && !last_accepted && offered == identities ==> s
            == AgentStep::Fail(AuthFailure::AgentKeysRejected),
{
    if identities == 0 {
        AgentStep::Fail(AuthFailure::AgentHasNoKeys)
    } else if offered > 0 && last_accepted {
        AgentStep::Done
    } else if offered < identities {
        AgentStep::Offer(offered)
    } else {
        AgentStep::Fail(AuthFailure::AgentKeysRejected)
    }
}

/// A request queued for the session task.
#[derive(Debug)]
pub enum SessionCommand {
    Write(Vec<u8>),
    Resize { cols: u32, rows: u32 },
    Disconnect,
}

/// The value of a [`SessionCommand`].
pub enum CommandView {
    Write(Seq<u8>),
    Resize(u32, u32),
    Disconnect,
}

/// The view of a command.
pub open spec fn command_view(cmd: SessionCommand) -> CommandView {
    match cmd {
        SessionCommand::Write(bytes) => CommandView::Write(bytes@),
        SessionCommand::Resize { cols, rows } => CommandView::Resize(cols, rows),
        SessionCommand::Disconnect => CommandView::Disconnect,
    }
}

/// What a batch holds: the bytes to write, the resize to apply, and whether
/// to disconnect.
pub struct FoldState {
    pub written: Seq<u8>,
    pub resize: Option<(u32, u32)>,
    pub disconnect: bool,
}

/// A batch after one more command.
pub open spec fn command_step(st: FoldState, c: CommandView) -> FoldState {
    match c {
        CommandView::Write(bytes) => FoldState { written: st.written + bytes, ..st },
        CommandView::Resize(cols, rows) => FoldState { resize: Some((cols, rows)), ..st },
        CommandView::Disconnect => FoldState { disconnect: true, ..st },
    }
}

/// A batch after the commands `cs`, in order.
pub open spec fn fold_commands(st: FoldState, cs: Seq<CommandView>) -> FoldState
    decreases cs.len(),
{
    if cs.len() == 0 {
        st
    } else {
        command_step(fold_commands(st, cs.drop_last()), cs.last())
    }
}

/// The payloads of the writes among `cs`, concatenated in order.
pub open spec fn writes_of(cs: Seq<CommandView>) -> Seq<u8>
    decreases cs.len(),
{
    if cs.len() == 0 {
        Seq::empty()
    } else {
        writes_of(cs.drop_last()) + match cs.last() {
            CommandView::Write(bytes) => bytes,
            _ => Seq::empty(),
        }
    }
}

/// The size of the last resize among `cs`, or `before` when there is none.
pub open spec fn last_resize(cs: Seq<CommandView>, before: Option<(u32, u32)>) -> Option<(u32, u32)>
    decreases cs.len(),
{
    if cs.len() == 0 {
        before
    } else {
        match cs.last() {
            CommandView::Resize(cols, rows) => Some((cols, rows)),
            _ => last_resize(cs.drop_last(), before),
        }
    }
}

/// Whether one of `cs` is a disconnect.
pub open spec fn has_disconnect(cs: Seq<CommandView>) -> bool {
    exists|i: int| 0 <= i < cs.len() && #[trigger] cs[i] is Disconnect
}

/// Folding commands one after another gives the writes concatenated in
/// order, the last resize (or the one before them all), and a disconnect
/// as soon as any of them is one.
pub proof fn law_fold_commands(st: FoldState, cs: Seq<CommandView>)
    ensures
        fold_commands(st, cs) == (FoldState {
            written: st.written + writes_of(cs),
            resize: last_resize(cs, st.resize),
            disconnect: st.disconnect || has_disconnect(cs),
        }),
    decreases cs.len(),
{
    if cs.len() == 0 {
        assert(st.written + writes_of(cs) =~= st.written);
    } else {
        let init = cs.drop_last();
        law_fold_commands(st, init);
        assert(st.written + writes_of(init) + match cs.last() {
            CommandView::Write(bytes) => bytes,
            _ => Seq::<u8>::empty(),
        } =~= st.written + writes_of(cs));
        if has_disconnect(init) {
            let i = choose|i: int| 0 <= i < init.len() && #[trigger] init[i] is Disconnect;
            assert(cs[i] == init[i]);
        }
        if has_disconnect(cs) && !(cs.last() is Disconnect) {
            let i = choose|i: int| 0 <= i < cs.len() && #[trigger] cs[i] is Disconnect;
            assert(init[i] == cs[i]);
        }
        if cs.last() is Disconnect {
            assert(cs[cs.len() - 1] is Disconnect);
        }
    }
}

/// Draining commands in two batches folds them as one batch would: the
/// second batch continues from where the first ended.
pub proof fn law_fold_batches(st: FoldState, a: Seq<CommandView>, b: Seq<CommandView>)
    ensures
        fold_commands(fold_commands(st, a), b) == fold_commands(st, a + b),
    decreases b.len(),
{
    if b.len() == 0 {
        assert(a + b =~= a);
    } else {
        law_fold_batches(st, a, b.drop_last());
        assert((a + b).drop_last() =~= a + b.drop_last());
        assert((a + b).last() == b.last());
    }
}

/// However the commands are split into batches, the bytes written are the
/// payloads of the writes, unchanged and in the order they were made.
pub proof fn law_writes_split(a: Seq<CommandView>, b: Seq<CommandView>)
    ensures
        writes_of(a + b) == writes_of(a) + writes_of(b),
{
    let st = FoldState { written: Seq::empty(), resize: None, disconnect: false };
    law_fold_batches(st, a, b);
    law_fold_commands(st, a);
    law_fold_commands(fold_commands(st, a), b);
    law_fold_commands(st, a + b);
    assert(Seq::<u8>::empty() + writes_of(a) =~= writes_of(a));
    assert(Seq::<u8>::empty() + writes_of(a + b) =~= writes_of(a + b));
}

/// Folds one command into the pending batch: written bytes accumulate in
/// order, the last resize wins, and a disconnect is remembered.
pub fn fold_session_command(
    cmd: SessionCommand,
    write_buf: &mut Vec<u8>,
    pending_resize: &mut Option<(u32, u32)>,
    should_disconnect: &mut bool,
)
    ensures
        match cmd {
            SessionCommand::Write(bytes) => {
                &&& final(write_buf)@ == old(write_buf)@ + bytes@
                &&& *final(pending_resize) == *old(pending_resize)
                &&& *final(should_disconnect) == *old(should_disconnect)
            },
            SessionCommand::Resize { cols, rows } => {
                &&& final(write_buf)@ == old(write_buf)@
                &&& *final(pending_resize) == Some((cols, rows))
                &&& *final(should_disconnect) == *old(should_disconnect)
            },
            SessionCommand::Disconnect => {
                &&& final(write_buf)@ == old(write_buf)@
                &&& *final(pending_resize) == *old(pending_resize)
                &&& *final(should_disconnect) == true
            },
        },
        command_step(
            FoldState {
                written: old(write_buf)@,
                resize: *old(pending_resize),
                disconnect: *old(should_disconnect),
            },
            command_view(cmd),
        ) == (FoldState {
            written: final(write_buf)@,
            resize: *final(pending_resize),
            disconnect: *final(should_disconnect),
        }),
{
    match cmd {
        SessionCommand::Write(bytes) => {
            let mut bytes = bytes;
            write_buf.append(&mut bytes);
        },
        SessionCommand::Resize { cols, rows } => {
            *pending_resize = Some((cols, rows));
        },
        SessionCommand::Disconnect => {
            *should_disconnect = true;
        },
    }
}

/// Written bytes past which a batch is sent without draining more commands.
pub const WRITE_BATCH_LIMIT: usize = 8192;

/// What a non-blocking receive on the command queue gave.
#[derive(Debug)]
pub enum Received {
    Command(SessionCommand),
    Empty,
    Disconnected,
}

/// Commands drained from the queue in one go.
#[derive(Debug)]
pub struct CommandBatch {
    pub write_buf: Vec<u8>,
    pub pending_resize: Option<(u32, u32)>,
    pub should_disconnect: bool,
}

impl CommandBatch {
    /// The batch that starts with `first`.
    pub fn start(first: SessionCommand) -> (b: Self)
        ensures
            match first {
                SessionCommand::Write(bytes) => b.write_buf@ == bytes@ && b.pending_resize
                    == None::<(u32, u32)> && !b.should_disconnect,
                SessionCommand::Resize { cols, rows } => b.write_buf@.len() == 0
                    && b.pending_resize == Some((cols, rows)) && !b.should_disconnect,
                SessionCommand::Disconnect => b.write_buf@.len() == 0 && b.pending_resize
                    == None::<(u32, u32)> && b.should_disconnect,
            },
    {
        let mut write_buf: Vec<u8> = Vec::new();
        let mut pending_resize: Option<(u32, u32)> = None;
        let mut should_disconnect = false;
        fold_session_command(first, &mut write_buf, &mut pending_resize, &mut should_disconnect);
        CommandBatch { write_buf, pending_resize, should_disconnect }
    }

    /// Whether the queue should be drained further.
    pub fn wants_more(&self) -> (b: bool)
        ensures
            b == !self.should_disconnect,
    {
        !self.should_disconnect
    }

    /// Takes in what a receive gave; returns whether to keep draining.
    /// A closed queue counts as a disconnect.
    pub fn receive(&mut self, r: Received) -> (more: bool)
        ensures
            match r {
                Received::Command(cmd) => {
                    &&& match cmd {
                        SessionCommand::Write(bytes) => final(self).write_buf@ == old(
                            self,
                        ).write_buf@ + bytes@ && final(self).pending_resize == old(
                            self,
                        ).pending_resize && final(self).should_disconnect == old(
                            self,
                        ).should_disconnect,
                        SessionCommand::Resize { cols, rows } => final(self).write_buf@ == old(
                            self,
                        ).write_buf@ && final(self).pending_resize == Some((cols, rows))
                            && final(self).should_disconnect == old(self).should_disconnect,
                        SessionCommand::Disconnect => final(self).write_buf@ == old(
                            self,
                        ).write_buf@ && final(self).pending_resize == old(self).pending_resize
                            && final(self).should_disconnect,
                    }
                    &&& more == (final(self).write_buf@.len() < WRITE_BATCH_LIMIT)
                },
                Received::Empty => {
                    &&& final(self).write_buf@ == old(self).write_buf@
                    &&& final(self).pending_resize == old(self).pending_resize
                    &&& final(self).should_disconnect == old(self).should_disconnect
                    &&& !more
                },
                Received::Disconnected => {
                    &&& final(self).write_buf@ == old(self).write_buf@
                    &&& final(self).pending_resize == old(self).pending_resize
                    &&& final(self).should_disconnect
                    &&& !more
                },
            },
    {
        match r {
            Received::Command(cmd) => {
                fold_session_command(
                    cmd,
                    &mut self.write_buf,
                    &mut self.pending_resize,
                    &mut self.should_disconnect,
                );
                self.write_buf.len() < WRITE_BATCH_LIMIT
            },
            Received::Empty => false,
            Received::Disconnected => {
                self.should_disconnect = true;
                false
            },
        }
    }
}

/// Why a session ends after a batch of commands.
#[derive(Debug, Clone, Copy, PartialEq, Eq, Structural)]
pub enum BatchEnd {
    /// Sending the written bytes failed: the session is reported closed.
    SendFailed,
    /// A disconnect was asked for: the channel is closed and the session is
    /// reported closed.
    Disconnect,
}

/// What remains to do for a batch once its written bytes were sent.
#[derive(Debug, Clone, Copy)]
pub struct BatchPlan {
    /// Resize the terminal to these columns and rows.
    pub resize: Option<(u32, u32)>,
    /// End the session.
    pub end: Option<BatchEnd>,
}

impl CommandBatch {
    /// The steps after sending the written bytes, `send_failed` telling
    /// whether bytes were written and sending them failed: a failed send
    /// ends the session at once; otherwise the pending resize is applied and
    /// a disconnect ends the session.
    pub fn settle(&self, send_failed: bool) -> (p: BatchPlan)
        ensures
            send_failed ==> p == (BatchPlan { resize: None, end: Some(BatchEnd::SendFailed) }),
            !send_failed ==> p.resize == self.pending_resize,
            !send_failed && self.should_disconnect ==> p.end == Some(BatchEnd::Disconnect),
            !send_failed && !self.should_disconnect ==> p.end == None::<BatchEnd>,
    {
        if send_failed {
            BatchPlan { resize: None, end: Some(BatchEnd::SendFailed) }
        } else if self.should_disconnect {
            BatchPlan { resize: self.pending_resize, end: Some(BatchEnd::Disconnect) }
        } else {
            BatchPlan { resize: self.pending_resize, end: None }
        }
    }
}

/// Buffered output past which it is flushed at once.
pub const OUTPUT_FLUSH_BYTES: usize = 65536;

/// How long, in milliseconds, output may wait in the buffer.
pub const OUTPUT_FLUSH_DELAY_MS: u64 = 16;

/// What the remote channel delivered.
#[derive(Debug)]
pub enum ChannelEvent {
    Data(Vec<u8>),
    ExtendedData(Vec<u8>),
    ExitStatus(u32),
    Eof,
    Closed,
    Other,
}

/// How a session ended.
#[derive(Debug, Clone, Copy, PartialEq, Eq, Structural)]
pub enum SessionEnd {
    Exit(u32),
    Eof,
    Closed,
}

/// What the session task does after a channel event.
#[derive(Debug)]
pub struct Reaction {
    /// Start the flush timer.
    pub arm_deadline: bool,
    /// Emit these bytes (and stop the flush timer).
    pub flush: Option<Vec<u8>>,
    /// End the session this way.
    pub end: Option<SessionEnd>,
}

/// The bytes a reaction emits.
pub open spec fn emitted(flush: Option<Vec<u8>>) -> Seq<u8> {
    match flush {
        Some(f) => f@,
        None => Seq::empty(),
    }
}

/// Remote output waiting to be emitted, and whether the flush timer runs.
#[derive(Debug)]
pub struct OutputBuffer {
    pub buf: Vec<u8>,
    pub deadline_armed: bool,
}

impl OutputBuffer {
    /// An empty buffer with no timer.
    pub fn new() -> (o: Self)
        ensures
            o.buf@.len() == 0,
            !o.deadline_armed,
    {
        OutputBuffer { buf: Vec::new(), deadline_armed: false }
    }

    /// Takes the buffered output, if there is any, stopping the timer; an
    /// empty buffer is left as it is.
    pub fn flush(&mut self) -> (out: Option<Vec<u8>>)
        ensures
            old(self).buf@.len() == 0 ==> out is None && final(self).buf@ == old(self).buf@
                && final(self).deadline_armed == old(self).deadline_armed,
            old(self).buf@.len() > 0 ==> out is Some && out->0@ == old(self).buf@
                && final(self).buf@.len() == 0 && !final(self).deadline_armed,
    {
        if self.buf.len() == 0 {
            None
        } else {
            let mut out: Vec<u8> = Vec::new();
            std::mem::swap(&mut out, &mut self.buf);
            self.deadline_armed = false;
            Some(out)
        }
    }

    fn absorb(&mut self, data: Vec<u8>) -> (r: Reaction)
        ensures
            r.arm_deadline == !old(self).deadline_armed,
            r.end is None,
            emitted(r.flush) + final(self).buf@ == old(self).buf@ + data@,
            final(self).buf@.len() < OUTPUT_FLUSH_BYTES,
            old(self).buf@.len() + data@.len() >= OUTPUT_FLUSH_BYTES ==> r.flush is Some
                && r.flush->0@ == old(self).buf@ + data@ && final(self).buf@.len() == 0
                && !final(self).deadline_armed,
            old(self).buf@.len() + data@.len() < OUTPUT_FLUSH_BYTES ==> r.flush is None
                && final(self).buf@ == old(self).buf@ + data@ && final(self).deadline_armed,
    {
        let ghost incoming = data@;
        let mut data = data;
        self.buf.append(&mut data);
        let arm = !self.deadline_armed;
        self.deadline_armed = true;
        let flush = if self.buf.len() >= OUTPUT_FLUSH_BYTES {
            self.flush()
        } else {
            None
        };
        assert(emitted(flush) + self.buf@ =~= old(self).buf@ + incoming);
        Reaction { arm_deadline: arm, flush, end: None }
    }

    /// Reacts to a channel event: data is buffered (starting the timer if
    /// it is idle, flushing once the buffer reaches [`OUTPUT_FLUSH_BYTES`]);
    /// exit status, end of file and a closed channel flush and end the
    /// session; anything else is ignored.
    pub fn on_channel_event(&mut self, ev: ChannelEvent) -> (r: Reaction)
        ensures
            match ev {
                ChannelEvent::Data(data) | ChannelEvent::ExtendedData(data) => {
                    &&& r.arm_deadline == !old(self).deadline_armed
                    &&& r.end is None
                    &&& old(self).buf@.len() + data@.len() >= OUTPUT_FLUSH_BYTES ==> r.flush is Some
                        && r.flush->0@ == old(self).buf@ + data@ && final(self).buf@.len() == 0
                        && !final(self).deadline_armed
                    &&& old(self).buf@.len() + data@.len() < OUTPUT_FLUSH_BYTES ==> r.flush is None
                        && final(self).buf@ == old(self).buf@ + data@ && final(self).deadline_armed
                    &&& emitted(r.flush) + final(self).buf@ == old(self).buf@ + data@
                    &&& final(self).buf@.len() < OUTPUT_FLUSH_BYTES
                },
                ChannelEvent::Other => {
                    &&& !r.arm_deadline
                    &&& r.flush is None
                    &&& r.end is None
                    &&& final(self).buf@ == old(self).buf@
                    &&& final(self).deadline_armed == old(self).deadline_armed
                },
                _ => {
                    &&& !r.arm_deadline
                    &&& r.end == Some(
                        match ev {
                            ChannelEvent::ExitStatus(code) => SessionEnd::Exit(code),
                            ChannelEvent::Eof => SessionEnd::Eof,
                            _ => SessionEnd::Closed,
                        },
                    )
                    &&& old(self).buf@.len() == 0 ==> r.flush is None
                    &&& old(self).buf@.len() > 0 ==> r.flush is Some && r.flush->0@ == old(
                        self,
                    ).buf@
                    &&& final(self).buf@.len() == 0
                    &&& old(self).buf@.len() > 0 ==> !final(self).deadline_armed
                    &&& old(self).buf@.len() == 0 ==> final(self).deadline_armed == old(
                        self,
                    ).deadline_armed
                },
            },
    {
        match ev {
            ChannelEvent::Data(data) => self.absorb(data),
            ChannelEvent::ExtendedData(data) => self.absorb(data),
            ChannelEvent::ExitStatus(code) => {
                let flush = self.flush();
                Reaction { arm_deadline: false, flush, end: Some(SessionEnd::Exit(code)) }
            },
            ChannelEvent::Eof => {
                let flush = self.flush();
                Reaction { arm_deadline: false, flush, end: Some(SessionEnd::Eof) }
            },
            ChannelEvent::Closed => {
                let flush = self.flush();
                Reaction { arm_deadline: false, flush, end: Some(SessionEnd::Closed) }
            },
            ChannelEvent::Other => Reaction { arm_deadline: false, flush: None, end: None },
        }
    }
}

/// The kinds of events a session reports to the user interface.
#[derive(Debug, Clone, Copy, PartialEq, Eq, Structural)]
pub enum SessionEventKind {
    Data,
    Closed,
    Exit,
    Eof,
}

/// The prefix of the event name of each kind.
pub open spec fn event_prefix(kind: SessionEventKind) -> Seq<char> {
    match kind {
        SessionEventKind::Data => seq!['s', 's', 'h', '-', 'd', 'a', 't', 'a', '-'],
        SessionEventKind::Closed => seq!['s', 's', 'h', '-', 'c', 'l', 'o', 's', 'e', 'd', '-'],
        SessionEventKind::Exit => seq!['s', 's', 'h', '-', 'e', 'x', 'i', 't', '-'],
        SessionEventKind::Eof => seq!['s', 's', 'h', '-', 'e', 'o', 'f', '-'],
    }
}

/// The name under which events of `kind` are emitted for `session_id`,
/// such as `ssh-data-<id>`.
pub fn session_event_name(kind: SessionEventKind, session_id: &str) -> (name: String)
    ensures
        name@ == event_prefix(kind) + session_id@,
{
    let prefix = match kind {
        SessionEventKind::Data => {
            proof {
                reveal_strlit("ssh-data-");
            }
            "ssh-data-"
        },
        SessionEventKind::Closed => {
            proof {
                reveal_strlit("ssh-closed-");
            }
            "ssh-closed-"
        },
        SessionEventKind::Exit => {
            proof {
                reveal_strlit("ssh-exit-");
            }
            "ssh-exit-"
        },
        SessionEventKind::Eof => {
            proof {
                reveal_strlit("ssh-eof-");
            }
            "ssh-eof-"
        },
    };
    assert(prefix@ =~= event_prefix(kind));
    let mut name = prefix.to_owned();
    name.append(session_id);
    name
}

} // verus!
