//! The decisions of the PS/2 keyboard driver: what to send and when a command succeeded. The
//! port I/O itself is done by the caller.
use vstd::prelude::*;

verus! {

/// The maximum number of attempts for sending a command to the PS/2 controller.
pub const MAX_ATTEMPTS: usize = 3;
/// The controller's answer to a successful self-test.
pub const TEST_CONTROLLER_PASS: u8 = 0x55;
/// The answer to a successful keyboard port test.
pub const TEST_KEYBOARD_PASS: u8 = 0x00;
/// The keyboard's acknowledgement.
pub const KEYBOARD_ACK: u8 = 0xfa;
/// The command testing the controller.
pub const CMD_TEST_CONTROLLER: u8 = 0xaa;
/// The command testing the keyboard port.
pub const CMD_TEST_DEVICE: u8 = 0xab;

/// Enumeration of keyboard keys.
#[derive(Clone, Copy, Debug, PartialEq, Eq, Structural)]
pub enum KeyboardKey {
    KeyEsc, Key1, Key2, Key3, Key4, Key5, Key6, Key7, Key8, Key9, Key0, KeyMinus, KeyEqual,
    KeyBackspace, KeyTab, KeyQ, KeyW, KeyE, KeyR, KeyT, KeyY, KeyU, KeyI, KeyO, KeyP,
    KeyOpenBrace, KeyCloseBrace, KeyEnter, KeyLeftControl, KeyA, KeyS, KeyD, KeyF, KeyG, KeyH,
    KeyJ, KeyK, KeyL, KeySemiColon, KeySingleQuote, KeyBackTick, KeyLeftShift, KeyBackslash,
    KeyZ, KeyX, KeyC, KeyV, KeyB, KeyN, KeyM, KeyComma, KeyDot, KeySlash, KeyRightShift,
    KeyKeypadStar, KeyLeftAlt, KeySpace, KeyCapsLock, KeyF1, KeyF2, KeyF3, KeyF4, KeyF5, KeyF6,
    KeyF7, KeyF8, KeyF9, KeyF10, KeyNumberLock, KeyScrollLock, KeyKeypad7, KeyKeypad8,
    KeyKeypad9, KeyKeypadMinus, KeyKeypad4, KeyKeypad5, KeyKeypad6, KeyKeypadPlus, KeyKeypad1,
    KeyKeypad2, KeyKeypad3, KeyKeypad0, KeyKeypadDot, KeyF11, KeyF12,
}

/// Enumeration of keyboard actions.
#[derive(Clone, Copy, Debug, PartialEq, Eq, Structural)]
pub enum KeyboardAction {
    /// The key was pressed.
    Pressed,
    /// The key was released.
    Released,
}

/// What to do after a response to a command.
#[derive(Clone, Copy, Debug, PartialEq, Eq, Structural)]
pub enum CommandStep {
    /// The expected response came: the command succeeded.
    Done,
    /// Send the command again.
    Retry,
    /// Every attempt failed.
    Fail,
}

/// The step after response `response` to attempt number `attempt` (from zero) of a command
/// expecting `expected`.
pub fn command_step(attempt: usize, response: u8, expected: u8) -> (r: CommandStep)
    ensures
        response == expected ==> r == CommandStep::Done,
        response != expected && attempt + 1 < MAX_ATTEMPTS ==> r == CommandStep::Retry,
        response != expected && attempt + 1 >= MAX_ATTEMPTS ==> r == CommandStep::Fail,
{
    if response == expected {
        CommandStep::Done
    } else if attempt < MAX_ATTEMPTS - 1 {
        CommandStep::Retry
    } else {
        CommandStep::Fail
    }
}

/// The outcome of a command whose successive responses were `responses`: it succeeds when one
/// of its first attempts got the expected response.
pub fn command_outcome(responses: &[u8], expected: u8) -> (r: Result<(), ()>)
    ensures
        r is Ok <==> exists|i: int| 0 <= i < responses@.len() && i < MAX_ATTEMPTS && responses@[i] == expected,
{
    let mut i: usize = 0;
    while i < responses.len() && i < MAX_ATTEMPTS
        invariant
            i <= responses@.len(),
            i <= MAX_ATTEMPTS,
            forall|j: int| 0 <= j < i ==> responses@[j] != expected,
        decreases responses@.len() - i,
    {
        if responses[i] == expected {
            return Ok(());
        }
        i += 1;
    }
    Err(())
}

/// The configuration byte with both devices' interrupts and the scancode conversion off, set
/// before the tests.
pub fn config_for_tests(config: u8) -> (r: u8)
    ensures
        r == config & 0b10111100,
{
    config & 0b10111100
}

/// The configuration byte with the keyboard's interrupt enabled.
pub fn config_enable_keyboard(config: u8) -> (r: u8)
    ensures
        r == config | 0b1,
{
    config | 0b1
}

/// The bytes sent to the keyboard to enable it: scancode set 1, fastest typematic rate, then
/// scanning enabled.
pub fn keyboard_enable_sequence() -> (r: Vec<u8>)
    ensures
        r@ == seq![0xf0u8, 1u8, 0xf3u8, 0u8, 0xf4u8],
{
    let r = vec![0xf0u8, 1u8, 0xf3u8, 0u8, 0xf4u8];
    assert(r@ =~= seq![0xf0u8, 1u8, 0xf3u8, 0u8, 0xf4u8]);
    r
}

} // verus!
