//! Target-side command registry and dispatch.

use vstd::prelude::*;
use crate::cmd_id::CMD_ID_DISCOVERY;
use crate::postcard_wire::{push_all, push_str, push_varint_u64, str_encoding, varint};

verus! {

/// Errors that can occur while dispatching a command.
#[derive(Debug, Clone, Copy, PartialEq, Eq, Structural)]
pub enum DispatchError {
    /// No registered command has the requested ID.
    UnknownCommand,
    /// The argument payload could not be deserialized.
    DeserializeError,
    /// The result did not fit the output buffer.
    SerializeError,
    /// The request payload exceeded the maximum payload size.
    PayloadTooLarge,
}

/// The type-erased entry point of a registered command: it deserializes the
/// argument bytes in `input`, runs the command, serializes the result into
/// `output` and returns the number of bytes written.
///
/// Each implementation says, by `invoke_post`, what its `invoke` gives for an
/// input, the output buffer before and after the call, and the result.
pub trait CommandShim {
    /// What holds of a run of `invoke` on `input` that found `before` in the
    /// output buffer, left `after` there and returned `r`. An entry point
    /// that does not say promises nothing.
    open spec fn invoke_post(
        &self,
        input: Seq<u8>,
        before: Seq<u8>,
        after: Seq<u8>,
        r: Result<usize, DispatchError>,
    ) -> bool {
        true
    }

    /// Run the command on `input`, writing its result into `output`.
    fn invoke(&self, input: &[u8], output: &mut [u8]) -> (r: Result<usize, DispatchError>)
        ensures
            self.invoke_post(input@, old(output)@, final(output)@, r),
    ;
}

/// A non-blocking byte-stream transport of the target, for users to
/// implement. Neither method waits: a read returns 0 when no byte is
/// available, a write may take fewer bytes than offered when the sink is
/// full.
pub trait Transport {
    /// Read up to `buf.len()` bytes into `buf`; the number read.
    fn read(&mut self, buf: &mut [u8]) -> (n: usize)
        ensures
            n <= old(buf)@.len(),
            final(buf)@.len() == old(buf)@.len(),
    ;

    /// Write up to `buf.len()` bytes from `buf`; the number written.
    fn write(&mut self, buf: &[u8]) -> (n: usize)
        ensures
            n <= buf@.len(),
    ;
}

/// Static metadata of one registered command.
pub struct CommandMetadata<S> {
    /// Function name, reported by discovery.
    pub name: &'static str,
    /// Command ID derived from the name and both schemas.
    pub id: u16,
    /// The command's entry point.
    pub invoke: S,
}

/// The argument check of a command without wire arguments: any input byte
/// is a deserialization error.
pub fn check_no_args(input: &[u8]) -> (r: Result<(), DispatchError>)
    ensures
        r is Ok <==> input@.len() == 0,
        r matches Err(e) ==> e == DispatchError::DeserializeError,
{
    if input.len() != 0 {
        return Err(DispatchError::DeserializeError);
    }
    Ok(())
}

/// The discovery listing of one command: its ID, its name, and empty
/// schemas and argument names (the schemas travel on demand).
pub open spec fn discovery_entry<S>(c: CommandMetadata<S>) -> Seq<u8> {
    varint(c.id as nat) + str_encoding(c.name@) + seq![0u8, 0u8, 0u8]
}

/// The listings of the commands, in order.
pub open spec fn discovery_entries<S>(cmds: Seq<CommandMetadata<S>>) -> Seq<u8>
    decreases cmds.len(),
{
    if cmds.len() == 0 {
        Seq::empty()
    } else {
        discovery_entries(cmds.drop_last()) + discovery_entry(cmds.last())
    }
}

/// The discovery response for the registered commands: one page at offset
/// 0 whose total is the number of commands, holding the count and then the
/// listing of every command.
pub open spec fn discovery_response<S>(cmds: Seq<CommandMetadata<S>>) -> Seq<u8> {
    let entries = varint(cmds.len()) + discovery_entries(cmds);
    varint(cmds.len()) + seq![0u8] + varint(entries.len()) + entries
}

/// What answering discovery does: where the command count fits the page's
/// 16-bit total and the response fits `before`, the response is written at
/// the front of the buffer and its length returned; else `SerializeError`
/// with the buffer unchanged.
pub open spec fn discovery_outcome<S>(
    cmds: Seq<CommandMetadata<S>>,
    before: Seq<u8>,
    after: Seq<u8>,
    r: Result<usize, DispatchError>,
) -> bool {
    let resp = discovery_response(cmds);
    if cmds.len() <= 0xFFFF && resp.len() <= before.len() {
        r == Ok::<usize, DispatchError>(resp.len() as usize) && after == resp + before.skip(
            resp.len() as int,
        )
    } else {
        r == Err::<usize, DispatchError>(DispatchError::SerializeError) && after == before
    }
}

/// RPC server running on the target.
///
/// `T` is the byte-stream transport, `S` the command entry-point type and `N`
/// the size of the receive and transmit buffers.
pub struct TelepathServer<'a, T, S, const N: usize> {
    transport: T,
    commands: &'a [CommandMetadata<S>],
}

impl<'a, T, S: CommandShim, const N: usize> TelepathServer<'a, T, S, N> {
    /// A server over `transport` with the given command registry.
    pub fn new(transport: T, commands: &'a [CommandMetadata<S>]) -> (r: Self)
        ensures
            r.commands() == commands@,
    {
        TelepathServer { transport, commands }
    }

    /// The registered commands.
    pub closed spec fn commands(self) -> Seq<CommandMetadata<S>> {
        self.commands@
    }

    /// The first registered command whose ID is `id`, found by linear scan.
    pub fn find_command(&self, id: u16) -> (r: Option<&CommandMetadata<S>>)
        ensures
            r is None <==> forall|i: int|
                0 <= i < self.commands().len() ==> #[trigger] self.commands()[i].id != id,
            r matches Some(c) ==> exists|i: int|
                0 <= i < self.commands().len() && *c == #[trigger] self.commands()[i]
                    && c.id == id && forall|j: int|
                    0 <= j < i ==> self.commands()[j].id != id,
    {
        let mut i: usize = 0;
        while i < self.commands.len()
            invariant
                i <= self.commands@.len(),
                forall|j: int| 0 <= j < i ==> self.commands@[j].id != id,
            decreases self.commands@.len() - i,
        {
            if self.commands[i].id == id {
                assert(self.commands()[i as int].id == id);
                return Some(&self.commands[i]);
            }
            i += 1;
        }
        None
    }

    /// Dispatch a decoded request to the command with ID `cmd_id`.
    ///
    /// The discovery ID is answered by [`Self::handle_discovery`]; an ID no
    /// command has gives `UnknownCommand` and leaves `output` alone;
    /// otherwise the first command with that ID runs on `input` and `output`
    /// and its result is returned.
    pub fn dispatch(&mut self, cmd_id: u16, input: &[u8], output: &mut [u8]) -> (r: Result<
        usize,
        DispatchError,
    >)
        ensures
            final(self).commands() == old(self).commands(),
            cmd_id == CMD_ID_DISCOVERY ==> discovery_outcome(
                old(self).commands(),
                old(output)@,
                final(output)@,
                r,
            ),
            cmd_id != CMD_ID_DISCOVERY && (forall|i: int|
                0 <= i < old(self).commands().len() ==> #[trigger] old(self).commands()[i].id
                    != cmd_id) ==> r == Err::<usize, DispatchError>(DispatchError::UnknownCommand)
                && final(output)@ == old(output)@,
            cmd_id != CMD_ID_DISCOVERY ==> forall|i: int|
                0 <= i < old(self).commands().len() && #[trigger] old(self).commands()[i].id
                    == cmd_id && (forall|j: int|
                    0 <= j < i ==> old(self).commands()[j].id != cmd_id) ==> old(
                    self,
                ).commands()[i].invoke.invoke_post(input@, old(output)@, final(output)@, r),
    {
        if cmd_id == CMD_ID_DISCOVERY {
            return self.handle_discovery(output);
        }
        match self.find_command(cmd_id) {
            None => Err(DispatchError::UnknownCommand),
            Some(cmd) => {
                proof {
                    let k = choose|k: int|
                        0 <= k < self.commands().len() && *cmd == #[trigger] self.commands()[k]
                            && cmd.id == cmd_id && forall|j: int|
                            0 <= j < k ==> self.commands()[j].id != cmd_id;
                    assert forall|i: int|
                        0 <= i < self.commands().len() && #[trigger] self.commands()[i].id
                            == cmd_id && (forall|j: int|
                            0 <= j < i ==> self.commands()[j].id != cmd_id) implies i == k by {
                        if i < k {
                            assert(self.commands()[i].id != cmd_id);
                        }
                        if k < i {
                            assert(self.commands()[k].id != cmd_id);
                        }
                    }
                }
                cmd.invoke.invoke(input, output)
            },
        }
    }

    /// Answer a discovery request: write into `output` a response listing
    /// every registered command's name and ID, and return the number of
    /// bytes written.
    fn handle_discovery(&self, output: &mut [u8]) -> (r: Result<usize, DispatchError>)
        ensures
            discovery_outcome(self.commands(), old(output)@, final(output)@, r),
    {
        let cmds = self.commands;
        if cmds.len() > 0xFFFF {
            return Err(DispatchError::SerializeError);
        }
        let mut entries: Vec<u8> = Vec::new();
        push_varint_u64(&mut entries, cmds.len() as u64);
        let ghost head = entries@;
        let mut i: usize = 0;
        assert(cmds@.take(0) =~= Seq::<CommandMetadata<S>>::empty());
        while i < cmds.len()
            invariant
                i <= cmds@.len(),
                head == varint(cmds@.len()),
                entries@ == head + discovery_entries(cmds@.take(i as int)),
            decreases cmds@.len() - i,
        {
            let c = &cmds[i];
            push_varint_u64(&mut entries, c.id as u64);
            push_str(&mut entries, c.name);
            entries.push(0);
            entries.push(0);
            entries.push(0);
            proof {
                assert(cmds@.take(i + 1).drop_last() =~= cmds@.take(i as int));
                assert(cmds@.take(i + 1).last() == cmds@[i as int]);
                assert(entries@ =~= head + discovery_entries(cmds@.take(i + 1)));
            }
            i += 1;
        }
        assert(cmds@.take(i as int) =~= cmds@);
        let mut resp: Vec<u8> = Vec::new();
        push_varint_u64(&mut resp, cmds.len() as u64);
        resp.push(0);
        push_varint_u64(&mut resp, entries.len() as u64);
        push_all(&mut resp, entries.as_slice());
        assert(resp@ =~= discovery_response(cmds@));
        if resp.len() > output.len() {
            return Err(DispatchError::SerializeError);
        }
        let ghost before = output@;
        let mut k: usize = 0;
        while k < resp.len()
            invariant
                k <= resp@.len() <= before.len(),
                output@.len() == before.len(),
                forall|j: int| 0 <= j < k ==> output@[j] == resp@[j],
                forall|j: int| k <= j < before.len() ==> output@[j] == before[j],
            decreases resp@.len() - k,
        {
            output[k] = resp[k];
            k += 1;
        }
        assert(output@ =~= resp@ + before.skip(resp@.len() as int));
        Ok(resp.len())
    }
}

} // verus!
