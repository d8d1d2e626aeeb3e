//! Key events as the keyboard decoder delivers them.

use vstd::prelude::*;
use pc_keyboard::DecodedKey;
use crate::shell::{Reply, Shell};

verus! {

/// The key codes of `pc_keyboard`. The shell looks into none of them.
#[verifier::external_type_specification]
#[verifier::external_body]
pub struct ExKeyCode(pc_keyboard::KeyCode);

/// The decoded keys of `pc_keyboard`: a character, or a raw key code.
#[verifier::external_type_specification]
pub struct ExDecodedKey(pc_keyboard::DecodedKey);

/// The byte that stands for a character: the low eight bits of its code.
pub open spec fn low_byte(c: char) -> u8 {
    ((c as u32) % 256) as u8
}

/// The byte that stands for a character: the low eight bits of its code.
pub fn char_byte(c: char) -> (byte: u8)
    ensures
        byte == low_byte(c),
{
    let code: u32 = c as u32;
    (code % 256) as u8
}

/// Takes one decoded key. A character is handed to the shell as the byte
/// that stands for it; a raw key does nothing.
pub fn handle_keyboard_interrupt(shell: &mut Shell, key: DecodedKey) -> (reply: Option<Reply>)
    requires
        old(shell).wf(),
    ensures
        final(shell).wf(),
        match key {
            DecodedKey::Unicode(c) => {
                &&& reply is Some
                &&& final(shell)@ == old(shell)@.press(low_byte(c)).next
                &&& reply->0.status == old(shell)@.press(low_byte(c)).status
                &&& reply->0.display@ == old(shell)@.press(low_byte(c)).display
            },
            DecodedKey::RawKey(_) => reply is None && *final(shell) == *old(shell),
        },
{
    match key {
        DecodedKey::Unicode(c) => Some(shell.on_key_pressed(char_byte(c))),
        DecodedKey::RawKey(_) => None,
    }
}

} // verus!
