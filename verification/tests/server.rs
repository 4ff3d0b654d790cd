use telepath::server::{check_no_args, CommandMetadata, CommandShim, DispatchError, TelepathServer};

struct NoopShim;

impl CommandShim for NoopShim {
    fn invoke(&self, _input: &[u8], _output: &mut [u8]) -> Result<usize, DispatchError> {
        Ok(0)
    }
}

struct EchoShim;

impl CommandShim for EchoShim {
    fn invoke(&self, input: &[u8], output: &mut [u8]) -> Result<usize, DispatchError> {
        if input.len() > output.len() {
            return Err(DispatchError::SerializeError);
        }
        output[..input.len()].copy_from_slice(input);
        Ok(input.len())
    }
}

static TEST_COMMANDS: [CommandMetadata<NoopShim>; 1] = [CommandMetadata {
    name: "ping",
    id: 0x0001,
    invoke: NoopShim,
}];

struct FakeTransport;

#[test]
fn find_known_command() {
    let server = TelepathServer::<FakeTransport, NoopShim, 256>::new(FakeTransport, &TEST_COMMANDS);
    assert!(server.find_command(0x0001).is_some());
}

#[test]
fn find_unknown_command_returns_none() {
    let server = TelepathServer::<FakeTransport, NoopShim, 256>::new(FakeTransport, &TEST_COMMANDS);
    assert!(server.find_command(0xFFFF).is_none());
}

#[test]
fn dispatch_unknown_returns_error() {
    let mut server =
        TelepathServer::<FakeTransport, NoopShim, 256>::new(FakeTransport, &TEST_COMMANDS);
    let mut out = [0u8; 256];
    assert_eq!(server.dispatch(0xFFFF, &[], &mut out), Err(DispatchError::UnknownCommand));
}

#[test]
fn dispatch_discovery_lists_registered_commands() {
    let mut server =
        TelepathServer::<FakeTransport, NoopShim, 256>::new(FakeTransport, &TEST_COMMANDS);
    let mut out = [0xEEu8; 16];
    assert_eq!(server.dispatch(0x0000, &[1, 2], &mut out), Ok(13));
    // total 1, offset 0, then 10 entry bytes: count 1, id 1, "ping", and
    // empty schemas and argument names.
    assert_eq!(&out[..13], &[1, 0, 10, 1, 1, 4, b'p', b'i', b'n', b'g', 0, 0, 0]);
    assert_eq!(&out[13..], &[0xEE; 3]);
    let mut small = [0xEEu8; 12];
    assert_eq!(server.dispatch(0x0000, &[], &mut small), Err(DispatchError::SerializeError));
    assert_eq!(small, [0xEE; 12]);
}

#[test]
fn dispatch_unknown_leaves_output_alone() {
    let mut server =
        TelepathServer::<FakeTransport, NoopShim, 256>::new(FakeTransport, &TEST_COMMANDS);
    let mut out = [7u8; 4];
    assert_eq!(server.dispatch(0x0042, &[1], &mut out), Err(DispatchError::UnknownCommand));
    assert_eq!(out, [7u8; 4]);
}

#[test]
fn dispatch_runs_first_matching_command() {
    let cmds = [
        CommandMetadata { name: "echo", id: 0x0010, invoke: EchoShim },
        CommandMetadata { name: "echo2", id: 0x0010, invoke: EchoShim },
    ];
    let mut server = TelepathServer::<FakeTransport, EchoShim, 64>::new(FakeTransport, &cmds);
    assert_eq!(server.find_command(0x0010).unwrap().name, "echo");
    let mut out = [0u8; 8];
    assert_eq!(server.dispatch(0x0010, &[7, 8, 9], &mut out), Ok(3));
    assert_eq!(&out[..3], &[7, 8, 9]);
}

#[test]
fn no_args_check_rejects_any_input() {
    assert_eq!(check_no_args(&[]), Ok(()));
    assert_eq!(check_no_args(&[0xAB]), Err(DispatchError::DeserializeError));
}
