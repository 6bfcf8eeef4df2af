//! The SD card command/response protocol in SPI mode: command framing, the
//! bring-up state machine, response-byte location, and block-payload
//! extraction. Everything here is pure decision logic; the physical
//! exchange of bytes over the SPI channel is left to the transport that
//! drives it.

use vstd::prelude::*;
use vstd::slice::slice_subrange;

verus! {

/// Failures of card bring-up surfaced to the caller.
#[derive(Debug, Clone, Copy, PartialEq, Eq, Structural)]
pub enum SDCardInitializationError {
    SpiInitializationError,
    SpiConfigurationError,
    NoResponse,
}

/// How many CMD55+ACMD41 rounds bring-up makes before giving up.
pub const ACMD41_ATTEMPT_LIMIT: u8 = 4;

/// Fixed wait between ACMD41 rounds, in milliseconds.
pub const ACMD41_RETRY_DELAY_MS: u8 = 10;

/// How many idle bytes (80 clock cycles) precede the first command; the
/// physical layer requires them for card start-up.
pub const STARTUP_IDLE_BYTES: usize = 10;

/// The token that precedes a block payload in a read response.
pub const DATA_START_BYTE: u8 = 0xFE;

/// The fixed 6-byte frame of CMD0 (go idle).
pub fn cmd0_frame() -> (r: [u8; 6])
    ensures
        r@ == seq![0x40u8, 0x00u8, 0x00u8, 0x00u8, 0x00u8, 0x95u8],
{
    let r: [u8; 6] = [0x40, 0x00, 0x00, 0x00, 0x00, 0x95];
    proof {
        assert(r@ =~= seq![0x40u8, 0x00u8, 0x00u8, 0x00u8, 0x00u8, 0x95u8]);
    }
    r
}

/// The fixed 6-byte frame of CMD8 (send interface condition), asking for
/// 2.7-3.6 V with check pattern 0xAA.
pub fn cmd8_frame() -> (r: [u8; 6])
    ensures
        r@ == seq![0x48u8, 0x00u8, 0x00u8, 0x01u8, 0xAAu8, 0x87u8],
{
    let r: [u8; 6] = [0x48, 0x00, 0x00, 0x01, 0xAA, 0x87];
    proof {
        assert(r@ =~= seq![0x48u8, 0x00u8, 0x00u8, 0x01u8, 0xAAu8, 0x87u8]);
    }
    r
}

/// The fixed 6-byte frame of CMD55 (application command prefix).
pub fn cmd55_frame() -> (r: [u8; 6])
    ensures
        r@ == seq![0x77u8, 0x00u8, 0x00u8, 0x00u8, 0x00u8, 0x65u8],
{
    let r: [u8; 6] = [0x77, 0x00, 0x00, 0x00, 0x00, 0x65];
    proof {
        assert(r@ =~= seq![0x77u8, 0x00u8, 0x00u8, 0x00u8, 0x00u8, 0x65u8]);
    }
    r
}

/// The fixed 6-byte frame of ACMD41 (send operating condition, HCS set).
pub fn acmd41_frame() -> (r: [u8; 6])
    ensures
        r@ == seq![0x69u8, 0x40u8, 0x00u8, 0x00u8, 0x00u8, 0x77u8],
{
    let r: [u8; 6] = [0x69, 0x40, 0x00, 0x00, 0x00, 0x77];
    proof {
        assert(r@ =~= seq![0x69u8, 0x40u8, 0x00u8, 0x00u8, 0x00u8, 0x77u8]);
    }
    r
}

/// The 6-byte frame of the single-block read command: opcode 0x51, the low
/// 32 bits of the block address big-endian, and an idle CRC byte.
pub open spec fn spec_read_block_command(block_num: u64) -> Seq<u8> {
    seq![
        0x51u8,
        ((block_num >> 24) & 0xFF) as u8,
        ((block_num >> 16) & 0xFF) as u8,
        ((block_num >> 8) & 0xFF) as u8,
        block_num as u8,
        0xFFu8,
    ]
}

/// Builds the single-block read frame for a block address.
pub fn read_block_command(block_num: u64) -> (r: [u8; 6])
    ensures
        r@ == spec_read_block_command(block_num),
{
    let b3 = ((block_num & (0xFF << 24)) >> 24) as u8;
    let b2 = ((block_num & (0xFF << 16)) >> 16) as u8;
    let b1 = ((block_num & (0xFF << 8)) >> 8) as u8;
    let b0 = block_num as u8;
    assert((block_num & (0xFFu64 << 24u64)) >> 24u64 == (block_num >> 24u64) & 0xFF && (block_num
        & (0xFFu64 << 16u64)) >> 16u64 == (block_num >> 16u64) & 0xFF && (block_num & (0xFFu64
        << 8u64)) >> 8u64 == (block_num >> 8u64) & 0xFF) by (bit_vector);
    let r: [u8; 6] = [0x51, b3, b2, b1, b0, 0xFF];
    proof {
        assert(r@ =~= spec_read_block_command(block_num));
    }
    r
}

/// The first position of `r` holding a byte other than the idle byte 0xFF,
/// scanning from `i`.
pub open spec fn spec_first_non_idle_from(r: Seq<u8>, i: int) -> Option<int>
    decreases r.len() - i,
{
    if i < 0 || i >= r.len() {
        None
    } else if r[i] != 0xFF {
        Some(i)
    } else {
        spec_first_non_idle_from(r, i + 1)
    }
}

/// The byte at position `byte_num` of the card's answer, counted from the
/// first non-idle byte (the R1 status byte is position 0); `None` when the
/// card never answered or the answer is too short.
pub open spec fn spec_response_byte(r: Seq<u8>, byte_num: int) -> Option<u8> {
    match spec_first_non_idle_from(r, 0) {
        None => None,
        Some(p) => if p + byte_num < r.len() {
            Some(r[p + byte_num])
        } else {
            None
        },
    }
}

/// Locates byte `byte_num` of the card's answer within a raw response
/// window, skipping the idle bytes that precede it.
pub fn response_byte(response: &[u8], byte_num: usize) -> (r: Option<u8>)
    ensures
        r == spec_response_byte(response@, byte_num as int),
{
    let mut i: usize = 0;
    while i < response.len()
        invariant
            0 <= i <= response@.len(),
            spec_first_non_idle_from(response@, 0) == spec_first_non_idle_from(
                response@,
                i as int,
            ),
        decreases response@.len() - i,
    {
        if response[i] != 0xFF {
            if byte_num < response.len() - i {
                return Some(response[i + byte_num]);
            } else {
                return None;
            }
        }
        i = i + 1;
    }
    None
}

/// One state of card bring-up: each state records what the card has
/// acknowledged so far, and `Initializing` counts the ACMD41 rounds already
/// spent.
#[derive(Debug, Clone, Copy, PartialEq, Eq, Structural)]
pub enum SdInitState {
    PowerOn,
    Idle,
    VoltageChecked,
    Initializing { attempts: u8 },
    Ready,
    Failed,
}

/// What the transport must do next for a given bring-up state.
#[derive(Debug, Clone, Copy, PartialEq, Eq, Structural)]
pub enum SdInitAction {
    /// Send the start-up idle bytes, then CMD0, and collect a response.
    SendClocksThenCmd0,
    /// Send CMD8 and collect a response.
    SendCmd8,
    /// Send CMD55 then ACMD41 and collect the ACMD41 response.
    SendOpCond,
    /// Wait the fixed retry delay, then send CMD55+ACMD41 again.
    DelayThenSendOpCond,
    /// The card is ready: bring-up is complete.
    Done,
    /// Bring-up failed; the card is unusable.
    Abort,
}

/// The action a transport performs next in each bring-up state.
pub fn bring_up_action(state: &SdInitState) -> (r: SdInitAction)
    ensures
        r == match state {
            SdInitState::PowerOn => SdInitAction::SendClocksThenCmd0,
            SdInitState::Idle => SdInitAction::SendCmd8,
            SdInitState::VoltageChecked => SdInitAction::SendOpCond,
            SdInitState::Initializing { .. } => SdInitAction::DelayThenSendOpCond,
            SdInitState::Ready => SdInitAction::Done,
            SdInitState::Failed => SdInitAction::Abort,
        },
{
    match state {
        SdInitState::PowerOn => SdInitAction::SendClocksThenCmd0,
        SdInitState::Idle => SdInitAction::SendCmd8,
        SdInitState::VoltageChecked => SdInitAction::SendOpCond,
        SdInitState::Initializing { .. } => SdInitAction::DelayThenSendOpCond,
        SdInitState::Ready => SdInitAction::Done,
        SdInitState::Failed => SdInitAction::Abort,
    }
}

/// The bring-up transition for a raw response window received after the
/// state's command exchange.
pub open spec fn spec_bring_up_step(state: SdInitState, response: Seq<u8>) -> SdInitState {
    match state {
        SdInitState::PowerOn => {
            if spec_response_byte(response, 0) == Some(0x01u8) {
                SdInitState::Idle
            } else {
                SdInitState::Failed
            }
        },
        SdInitState::Idle => {
            if spec_response_byte(response, 3) == Some(0x01u8) && spec_response_byte(response, 4)
                == Some(0xAAu8) {
                SdInitState::VoltageChecked
            } else {
                SdInitState::Failed
            }
        },
        SdInitState::VoltageChecked => {
            if spec_response_byte(response, 0) == Some(0x00u8) {
                SdInitState::Ready
            } else {
                SdInitState::Initializing { attempts: 1 }
            }
        },
        SdInitState::Initializing { attempts } => {
            if spec_response_byte(response, 0) == Some(0x00u8) {
                SdInitState::Ready
            } else if attempts + 1 < ACMD41_ATTEMPT_LIMIT {
                SdInitState::Initializing { attempts: (attempts + 1) as u8 }
            } else {
                SdInitState::Failed
            }
        },
        SdInitState::Ready => SdInitState::Ready,
        SdInitState::Failed => SdInitState::Failed,
    }
}

/// Advances the bring-up state machine on the response to the state's
/// command: CMD0 must be acknowledged with R1 0x01, CMD8 must echo the
/// requested voltage (0x01) and check pattern (0xAA), and ACMD41 signals
/// readiness with R1 0x00, retried up to the fixed attempt limit.
pub fn bring_up_step(state: SdInitState, response: &[u8]) -> (r: SdInitState)
    ensures
        r == spec_bring_up_step(state, response@),
        r matches SdInitState::Initializing { attempts } ==> 1 <= attempts
            < ACMD41_ATTEMPT_LIMIT,
{
    match state {
        SdInitState::PowerOn => {
            if response_byte(response, 0) == Some(0x01) {
                SdInitState::Idle
            } else {
                SdInitState::Failed
            }
        },
        SdInitState::Idle => {
            let voltage_level_accepted = response_byte(response, 3) == Some(0x01);
            let check_pattern_good = response_byte(response, 4) == Some(0xAA);
            if voltage_level_accepted && check_pattern_good {
                SdInitState::VoltageChecked
            } else {
                SdInitState::Failed
            }
        },
        SdInitState::VoltageChecked => {
            if response_byte(response, 0) == Some(0x00) {
                SdInitState::Ready
            } else {
                SdInitState::Initializing { attempts: 1 }
            }
        },
        SdInitState::Initializing { attempts } => {
            if response_byte(response, 0) == Some(0x00) {
                SdInitState::Ready
            } else if (attempts as u16) + 1 < ACMD41_ATTEMPT_LIMIT as u16 {
                SdInitState::Initializing { attempts: attempts + 1 }
            } else {
                SdInitState::Failed
            }
        },
        SdInitState::Ready => SdInitState::Ready,
        SdInitState::Failed => SdInitState::Failed,
    }
}

/// The first position of `r` holding the data-start token 0xFE, scanning
/// from `i`.
pub open spec fn spec_find_data_start_from(r: Seq<u8>, i: int) -> Option<int>
    decreases r.len() - i,
{
    if i < 0 || i >= r.len() {
        None
    } else if r[i] == 0xFE {
        Some(i)
    } else {
        spec_find_data_start_from(r, i + 1)
    }
}

/// Locates the data-start token 0xFE within a raw read response.
pub fn find_data_start(data: &[u8]) -> (r: Option<usize>)
    ensures
        match spec_find_data_start_from(data@, 0) {
            None => r is None,
            Some(p) => 0 <= p < data@.len() && r == Some(p as usize),
        },
{
    let mut i: usize = 0;
    while i < data.len()
        invariant
            0 <= i <= data@.len(),
            spec_find_data_start_from(data@, 0) == spec_find_data_start_from(data@, i as int),
        decreases data@.len() - i,
    {
        if data[i] == 0xFE {
            return Some(i);
        }
        i = i + 1;
    }
    None
}

/// Extracts the 512-byte block payload from a raw read response: the 512
/// bytes that follow the first data-start token. `None` when the token
/// never appears in the window or the window ends before the payload does;
/// both are fatal protocol failures, and no partial data is surfaced.
pub fn parse_block_response(data: &[u8]) -> (r: Option<Vec<u8>>)
    ensures
        match spec_find_data_start_from(data@, 0) {
            None => r is None,
            Some(p) => {
                if p + 1 + 512 <= data@.len() {
                    r matches Some(block) && block@ == data@.subrange(p + 1, p + 513)
                } else {
                    r is None
                }
            },
        },
{
    let data_start = match find_data_start(data) {
        Some(p) => p,
        None => {
            return None;
        },
    };
    if data.len() - data_start < 513 {
        return None;
    }
    let block = vstd::slice::slice_to_vec(slice_subrange(data, data_start + 1, data_start + 513));
    Some(block)
}

} // verus!
