//! Decisions for switching a device on and off: finding it by its hardware
//! id, reading its state, choosing the state change, and reacting to power
//! events.

use vstd::prelude::*;
use crate::buffers::{check_win32_error, hresult_of_win32, to_u16_slice, u16_units};
use crate::paths::{decode_utf16_lossy, string_from_utf16_lossy};
use crate::text::{contains, contains_text};

verus! {

/// `CR_SUCCESS`: the configuration manager call succeeded.
pub const CR_SUCCESS: u32 = 0;

/// `CM_PROB_DISABLED`: the device is disabled.
pub const CM_PROB_DISABLED: u32 = 22;

/// `DICS_ENABLE`: state change that enables a device.
pub const DICS_ENABLE: u32 = 1;

/// `DICS_DISABLE`: state change that disables a device.
pub const DICS_DISABLE: u32 = 2;

/// `ERROR_NO_MORE_ITEMS`: the enumeration has no more devices.
pub const ERROR_NO_MORE_ITEMS: u32 = 259;

/// `WM_POWERBROADCAST`: the power-management window message.
pub const WM_POWERBROADCAST: u32 = 0x218;

/// `PBT_APMSUSPEND`: the system is about to suspend.
pub const PBT_APMSUSPEND: u32 = 4;

/// `PBT_APMRESUMEAUTOMATIC`: the system resumed.
pub const PBT_APMRESUMEAUTOMATIC: u32 = 0x12;

/// Whether the hardware ids held in `buf` (UTF-16 units, two bytes each, low
/// byte first) contain `device_id`.
pub fn hardware_id_matches(buf: &[u8], device_id: &str) -> (found: bool)
    ensures
        found == contains_text(decode_utf16_lossy(u16_units(buf@)), device_id@),
{
    let units = to_u16_slice(buf);
    let text = string_from_utf16_lossy(units.as_slice());
    contains(text.as_str(), device_id)
}

/// Whether a device is on, from its node status: on unless its problem is
/// "disabled".  When the status could not be read, the last error decides:
/// an error code fails, no error means "off".
pub fn device_turned_on(result: u32, problem_number: u32, last_error: u32) -> (r: Result<bool, i32>)
    ensures
        result == CR_SUCCESS ==> r == Ok::<bool, i32>(problem_number != CM_PROB_DISABLED),
        result != CR_SUCCESS && last_error == 0 ==> r == Ok::<bool, i32>(false),
        result != CR_SUCCESS && last_error != 0 ==> r == Err::<bool, i32>(
            hresult_of_win32(last_error),
        ),
{
    if result == CR_SUCCESS {
        return Ok(problem_number != CM_PROB_DISABLED);
    }
    match check_win32_error(last_error) {
        Ok(()) => Ok(false),
        Err(e) => Err(e),
    }
}

/// Whether a device is disabled, from its node status; when the status
/// could not be read, the last error decides: an error code fails, no error
/// means "not disabled".
pub fn device_disabled(result: u32, problem_number: u32, last_error: u32) -> (r: Result<bool, i32>)
    ensures
        result == CR_SUCCESS ==> r == Ok::<bool, i32>(problem_number == CM_PROB_DISABLED),
        result != CR_SUCCESS && last_error == 0 ==> r == Ok::<bool, i32>(false),
        result != CR_SUCCESS && last_error != 0 ==> r == Err::<bool, i32>(
            hresult_of_win32(last_error),
        ),
{
    if result == CR_SUCCESS {
        return Ok(problem_number == CM_PROB_DISABLED);
    }
    match check_win32_error(last_error) {
        Ok(()) => Ok(false),
        Err(e) => Err(e),
    }
}

/// Whether a device is on after the state change `change` (none, enable or
/// disable) is applied to it while it was `turned_on`.
pub open spec fn state_after(change: Option<u32>, turned_on: bool) -> bool {
    match change {
        None => turned_on,
        Some(c) => c == DICS_ENABLE,
    }
}

/// The state change that brings a device that is `turned_on` to the wanted
/// state `turn_on`, or `None` when it is there already.
pub fn state_change_for(turn_on: bool, turned_on: bool) -> (change: Option<u32>)
    ensures
        turn_on == turned_on ==> change == None::<u32>,
        turn_on != turned_on && turned_on ==> change == Some(DICS_DISABLE),
        turn_on != turned_on && !turned_on ==> change == Some(DICS_ENABLE),
        state_after(change, turned_on) == turn_on,
{
    if turned_on != turn_on {
        if turned_on {
            Some(DICS_DISABLE)
        } else {
            Some(DICS_ENABLE)
        }
    } else {
        None
    }
}

/// The state change applied to the device that is found by the one-shot
/// query: disable when it reads as disabled, otherwise enable.
pub fn toggle_state_change(disabled: bool) -> (change: u32)
    ensures
        change == if disabled {
            DICS_DISABLE
        } else {
            DICS_ENABLE
        },
{
    if disabled {
        DICS_DISABLE
    } else {
        DICS_ENABLE
    }
}

/// What to do after asking for the next device of the enumeration.
#[derive(Clone, Copy, Debug, PartialEq, Eq, Structural)]
pub enum EnumStep {
    /// No device is left.
    Stop,
    /// The enumeration failed with this `HRESULT`.
    Fail(i32),
    /// Look at the device.
    Process,
}

/// The next step of a device enumeration, from whether the call succeeded
/// and, when it did not, the last error code.
pub fn enum_step(succeeded: bool, last_error: u32) -> (step: EnumStep)
    ensures
        succeeded ==> step == EnumStep::Process,
        !succeeded && last_error == ERROR_NO_MORE_ITEMS ==> step == EnumStep::Stop,
        !succeeded && last_error != ERROR_NO_MORE_ITEMS && last_error != 0 ==> step == EnumStep::Fail(
            hresult_of_win32(last_error),
        ),
        !succeeded && last_error == 0 ==> step == EnumStep::Process,
{
    if !succeeded {
        if last_error == ERROR_NO_MORE_ITEMS {
            return EnumStep::Stop;
        }
        if let Err(e) = check_win32_error(last_error) {
            return EnumStep::Fail(e);
        }
    }
    EnumStep::Process
}

/// For a window message: `Some(turn_on)` when it announces a suspend
/// (`false`) or a resume (`true`), `None` for every other message, which is
/// left to the default handling.
pub fn power_event(msg: u32, wparam: usize) -> (r: Option<bool>)
    ensures
        r == (if msg == WM_POWERBROADCAST && (wparam as u32 == PBT_APMSUSPEND || wparam as u32
            == PBT_APMRESUMEAUTOMATIC) {
            Some(wparam as u32 == PBT_APMRESUMEAUTOMATIC)
        } else {
            None
        }),
{
    if msg == WM_POWERBROADCAST {
        let event = wparam as u32;
        if event == PBT_APMSUSPEND || event == PBT_APMRESUMEAUTOMATIC {
            return Some(event == PBT_APMRESUMEAUTOMATIC);
        }
    }
    None
}

/// The value a handled power event answers: `1` when the state change
/// failed, `0` when it succeeded.
pub fn power_event_result(failed: bool) -> (r: isize)
    ensures
        r == if failed {
            1isize
        } else {
            0isize
        },
{
    if failed {
        1
    } else {
        0
    }
}

} // verus!
