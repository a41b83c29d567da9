use rust_playground::devices::{
    device_disabled, device_turned_on, enum_step, hardware_id_matches, power_event,
    power_event_result, state_change_for, toggle_state_change, EnumStep,
};
use rust_playground::record_regex::{call_regex, is_record_line, RECORD_PATTERN};

fn utf16_bytes(text: &str) -> Vec<u8> {
    text.encode_utf16().flat_map(|u| u.to_le_bytes()).collect()
}

const ID: &str = "USB\\VID_8087&PID_0A2A&REV_0001";

#[test]
fn hardware_id_matches_finds_the_id_among_the_ids() {
    let buf = utf16_bytes("ACPI\\X\0USB\\VID_8087&PID_0A2A&REV_0001\0\0");
    assert!(hardware_id_matches(&buf, ID));
    let other = utf16_bytes("USB\\VID_8087&PID_0A2B&REV_0001\0\0");
    assert!(!hardware_id_matches(&other, ID));
    assert!(!hardware_id_matches(&[], ID));
}

#[test]
fn device_turned_on_reads_the_problem_number() {
    assert_eq!(device_turned_on(0, 22, 0), Ok(false));
    assert_eq!(device_turned_on(0, 0, 0), Ok(true));
    assert_eq!(device_turned_on(5, 0, 0), Ok(false));
    assert_eq!(device_turned_on(5, 0, 5), Err(-2147024891));
}

#[test]
fn device_disabled_reads_the_problem_number() {
    assert_eq!(device_disabled(0, 22, 0), Ok(true));
    assert_eq!(device_disabled(0, 1, 0), Ok(false));
    assert_eq!(device_disabled(13, 22, 0), Ok(false));
    assert_eq!(device_disabled(13, 22, 2), Err(-2147024894));
}

#[test]
fn state_change_for_reaches_the_wanted_state() {
    assert_eq!(state_change_for(true, false), Some(1));
    assert_eq!(state_change_for(false, true), Some(2));
    assert_eq!(state_change_for(true, true), None);
    assert_eq!(state_change_for(false, false), None);
}

#[test]
fn toggle_state_change_follows_the_reading() {
    assert_eq!(toggle_state_change(true), 2);
    assert_eq!(toggle_state_change(false), 1);
}

#[test]
fn enum_step_stops_at_the_last_device() {
    assert_eq!(enum_step(true, 259), EnumStep::Process);
    assert_eq!(enum_step(false, 259), EnumStep::Stop);
    assert_eq!(enum_step(false, 5), EnumStep::Fail(-2147024891));
    assert_eq!(enum_step(false, 0), EnumStep::Process);
}

#[test]
fn power_event_reacts_to_suspend_and_resume() {
    assert_eq!(power_event(0x218, 4), Some(false));
    assert_eq!(power_event(0x218, 0x12), Some(true));
    assert_eq!(power_event(0x218, 7), None);
    assert_eq!(power_event(0x10, 4), None);
    assert_eq!(power_event(0x218, 0x1_0000_0012), Some(true));
    assert_eq!(power_event_result(true), 1);
    assert_eq!(power_event_result(false), 0);
}

const RECORD: &str = "  12  34  0x1F  0123456789abcdef  ff  some text  \
    0123456789abcdef:fedcba9876543210  0000000000000001  -5  tail text";

#[test]
fn call_regex_recognises_record_lines() {
    assert!(call_regex(RECORD));
    assert!(!call_regex("hello world"));
    assert_eq!(is_record_line(RECORD), Some(true));
    assert_eq!(is_record_line(""), Some(false));
}

#[test]
fn call_regex_agrees_with_the_regex_crate() {
    let re = regex::Regex::new(RECORD_PATTERN).unwrap();
    for text in [RECORD, "XXXX 1 2 0123456789abcdef 3 x y 0123456789abcdef:0123456789abcdef 0123456789abcdef 9 zz", "1 2 3"] {
        assert_eq!(is_record_line(text), Some(re.is_match(text)));
    }
}
