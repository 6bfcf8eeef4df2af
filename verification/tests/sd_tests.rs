use sdfat32::sd::{
    acmd41_frame, bring_up_action, bring_up_step, cmd0_frame, cmd55_frame, cmd8_frame,
    find_data_start, parse_block_response, read_block_command, response_byte, SdInitAction,
    SdInitState, ACMD41_ATTEMPT_LIMIT, ACMD41_RETRY_DELAY_MS, DATA_START_BYTE,
};

#[test]
fn command_frames_are_fixed() {
    assert_eq!(cmd0_frame(), [0x40, 0x00, 0x00, 0x00, 0x00, 0x95]);
    assert_eq!(cmd8_frame(), [0x48, 0x00, 0x00, 0x01, 0xAA, 0x87]);
    assert_eq!(cmd55_frame(), [0x77, 0x00, 0x00, 0x00, 0x00, 0x65]);
    assert_eq!(acmd41_frame(), [0x69, 0x40, 0x00, 0x00, 0x00, 0x77]);
    assert_eq!(ACMD41_ATTEMPT_LIMIT, 4);
    assert_eq!(ACMD41_RETRY_DELAY_MS, 10);
    assert_eq!(DATA_START_BYTE, 0xFE);
}

#[test]
fn read_block_command_is_big_endian() {
    assert_eq!(
        read_block_command(0x0102_0304),
        [0x51, 0x01, 0x02, 0x03, 0x04, 0xFF]
    );
    assert_eq!(read_block_command(0), [0x51, 0x00, 0x00, 0x00, 0x00, 0xFF]);
    assert_eq!(
        read_block_command(2048),
        [0x51, 0x00, 0x00, 0x08, 0x00, 0xFF]
    );
    // only the low 32 bits of the address enter the frame
    assert_eq!(
        read_block_command(0x99_0000_0a0bu64),
        [0x51, 0x00, 0x00, 0x0A, 0x0B, 0xFF]
    );
}

#[test]
fn response_byte_skips_idle_bytes() {
    let window = [0xFF, 0xFF, 0x01, 0xAA, 0x55];
    assert_eq!(response_byte(&window, 0), Some(0x01));
    assert_eq!(response_byte(&window, 1), Some(0xAA));
    assert_eq!(response_byte(&window, 2), Some(0x55));
    assert_eq!(response_byte(&window, 3), None);
    assert_eq!(response_byte(&[0xFF; 8], 0), None);
    assert_eq!(response_byte(&[], 0), None);
    // a non-idle first byte is the status byte itself
    assert_eq!(response_byte(&[0x05, 0x07], 0), Some(0x05));
}

#[test]
fn bring_up_happy_path() {
    let s = SdInitState::PowerOn;
    assert_eq!(bring_up_action(&s), SdInitAction::SendClocksThenCmd0);

    let s = bring_up_step(s, &[0xFF, 0x01]);
    assert_eq!(s, SdInitState::Idle);
    assert_eq!(bring_up_action(&s), SdInitAction::SendCmd8);

    // CMD8 echoes the requested voltage at offset 3 and the check pattern
    // at offset 4
    let s = bring_up_step(s, &[0xFF, 0x01, 0x00, 0x00, 0x01, 0xAA]);
    assert_eq!(s, SdInitState::VoltageChecked);
    assert_eq!(bring_up_action(&s), SdInitAction::SendOpCond);

    let s = bring_up_step(s, &[0xFF, 0x00]);
    assert_eq!(s, SdInitState::Ready);
    assert_eq!(bring_up_action(&s), SdInitAction::Done);
}

#[test]
fn bring_up_cmd0_failure_is_fatal() {
    let s = bring_up_step(SdInitState::PowerOn, &[0xFF, 0x05]);
    assert_eq!(s, SdInitState::Failed);
    assert_eq!(bring_up_action(&s), SdInitAction::Abort);
    // no response at all
    let s = bring_up_step(SdInitState::PowerOn, &[0xFF; 16]);
    assert_eq!(s, SdInitState::Failed);
}

#[test]
fn bring_up_cmd8_checks_voltage_and_pattern() {
    let idle = SdInitState::Idle;
    let s = bring_up_step(idle, &[0xFF, 0x01, 0x00, 0x00, 0x02, 0xAA]);
    assert_eq!(s, SdInitState::Failed);
    let s = bring_up_step(idle, &[0xFF, 0x01, 0x00, 0x00, 0x01, 0xAB]);
    assert_eq!(s, SdInitState::Failed);
}

#[test]
fn bring_up_retries_acmd41_four_times() {
    let busy = [0xFF, 0x01];
    let mut s = bring_up_step(SdInitState::VoltageChecked, &busy);
    assert_eq!(s, SdInitState::Initializing { attempts: 1 });
    assert_eq!(bring_up_action(&s), SdInitAction::DelayThenSendOpCond);
    s = bring_up_step(s, &busy);
    assert_eq!(s, SdInitState::Initializing { attempts: 2 });
    s = bring_up_step(s, &busy);
    assert_eq!(s, SdInitState::Initializing { attempts: 3 });
    // the fourth busy answer exhausts the attempt limit
    s = bring_up_step(s, &busy);
    assert_eq!(s, SdInitState::Failed);
}

#[test]
fn bring_up_late_ready_succeeds() {
    let s = bring_up_step(SdInitState::Initializing { attempts: 2 }, &[0xFF, 0x00]);
    assert_eq!(s, SdInitState::Ready);
}

#[test]
fn parse_block_response_extracts_payload() {
    let mut window = vec![0xFFu8; 700];
    window[40] = 0xFE;
    for i in 0..512 {
        window[41 + i] = (i % 256) as u8;
    }
    assert_eq!(find_data_start(&window), Some(40));
    let block = parse_block_response(&window).unwrap();
    assert_eq!(block.len(), 512);
    for i in 0..512 {
        assert_eq!(block[i], (i % 256) as u8);
    }
}

#[test]
fn parse_block_response_without_token_fails() {
    let window = vec![0xFFu8; 700];
    assert_eq!(find_data_start(&window), None);
    assert!(parse_block_response(&window).is_none());
}

#[test]
fn parse_block_response_with_truncated_payload_fails() {
    let mut window = vec![0xFFu8; 700];
    // the token appears too late for a full 512-byte payload to follow
    window[400] = 0xFE;
    assert_eq!(find_data_start(&window), Some(400));
    assert!(parse_block_response(&window).is_none());
}
