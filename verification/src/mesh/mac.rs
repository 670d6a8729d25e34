//! Medium access control: channel states, transmit decisions and errors.

use vstd::prelude::*;

verus! {

/// Channel state
#[derive(Debug, Clone, Copy, PartialEq, Eq, Structural)]
pub enum ChannelState {
    /// Channel is idle, can transmit
    Idle,
    /// Channel is busy (transmission detected)
    Busy,
    /// In backoff waiting period
    Backoff,
    /// Currently transmitting
    Transmitting,
    /// Currently receiving
    Receiving,
}

/// Transmission decision from MAC layer
#[derive(Debug, Clone, Copy, PartialEq, Eq, Structural)]
pub enum TransmitDecision {
    /// Transmit immediately
    TransmitNow,
    /// Wait for DIFS period
    WaitDifs,
    /// In backoff, wait N slots
    Backoff(u32),
    /// Already transmitting
    AlreadyTransmitting,
    /// Nothing in queue to send
    NothingToSend,
    /// Duty cycle limit reached
    DutyCycleLimit,
    /// Maximum backoff attempts exceeded
    MaxBackoffExceeded,
}

/// MAC layer errors
#[derive(Debug, Clone, Copy, PartialEq, Eq, Structural)]
pub enum MacError {
    /// Transmit queue is full
    QueueFull,
    /// Channel access timeout
    AccessTimeout,
    /// Collision detected
    Collision,
}

/// The text of each MAC error.
pub open spec fn mac_error_text(e: MacError) -> Seq<char> {
    match e {
        MacError::QueueFull => "Transmit queue full"@,
        MacError::AccessTimeout => "Channel access timeout"@,
        MacError::Collision => "Collision detected"@,
    }
}

impl MacError {
    /// The error's message.
    pub fn message(&self) -> (m: &'static str)
        ensures
            m@ == mac_error_text(*self),
    {
        match self {
            MacError::QueueFull => "Transmit queue full",
            MacError::AccessTimeout => "Channel access timeout",
            MacError::Collision => "Collision detected",
        }
    }
}

/// A point in time from the monotonic clock.
#[verifier::external_type_specification]
#[verifier::external_body]
pub struct ExInstant(std::time::Instant);

/// `Instant::clone`: `Instant` is `Copy`, so the clone is the same instant.
pub assume_specification[ <std::time::Instant as Clone>::clone ](i: &std::time::Instant) -> (c: std::time::Instant)
    ensures
        c == *i,
;

/// Backoff state of the CSMA/CA channel access.
#[derive(Debug)]
pub struct BackoffState {
    /// Current contention window size
    pub contention_window: u32,
    /// Remaining backoff slots
    pub remaining_slots: u32,
    /// Number of backoff attempts
    pub attempts: u8,
    /// Time when backoff started
    pub start_time: Option<std::time::Instant>,
}

impl BackoffState {
    /// A fresh backoff state with the minimum window.
    pub fn new(cw_min: u32) -> (b: Self)
        ensures
            b.contention_window == cw_min,
            b.remaining_slots == 0,
            b.attempts == 0,
            b.start_time.is_none(),
    {
        BackoffState { contention_window: cw_min, remaining_slots: 0, attempts: 0, start_time: None }
    }

    /// Double the contention window, capped at `cw_max`.
    pub fn double_window(&mut self, cw_max: u32)
        requires
            old(self).contention_window * 2 <= u32::MAX,
        ensures
            final(self).contention_window == (if old(self).contention_window * 2 < cw_max {
                old(self).contention_window * 2
            } else {
                cw_max as int
            }),
            final(self).remaining_slots == old(self).remaining_slots,
            final(self).attempts == old(self).attempts,
            final(self).start_time == old(self).start_time,
    {
        let doubled = self.contention_window * 2;
        self.contention_window = if doubled < cw_max { doubled } else { cw_max };
    }

    /// Back to the minimum window, no slots, no attempts, not started.
    pub fn reset(&mut self, cw_min: u32)
        ensures
            final(self).contention_window == cw_min,
            final(self).remaining_slots == 0,
            final(self).attempts == 0,
            final(self).start_time.is_none(),
    {
        self.contention_window = cw_min;
        self.remaining_slots = 0;
        self.attempts = 0;
        self.start_time = None;
    }
}


/// CSMA/CA configuration. The utilization target (0.0 - 1.0) and the
/// channel activity threshold (dBm) are `f32` bit patterns.
#[derive(Debug, Clone, Copy, PartialEq, Eq, Structural)]
pub struct CsmaConfig {
    /// Minimum contention window size (slots)
    pub cw_min: u32,
    /// Maximum contention window size (slots)
    pub cw_max: u32,
    /// Slot time in milliseconds
    pub slot_time_ms: u64,
    /// Maximum number of backoff attempts
    pub max_backoff_attempts: u8,
    /// DIFS (Distributed Inter-Frame Space) in milliseconds
    pub difs_ms: u64,
    /// Target maximum channel utilization
    pub target_utilization: u32,
    /// Channel activity detection threshold
    pub cad_threshold: u32,
}

impl Default for CsmaConfig {
    /// Windows of 16 to 256 slots of 10 ms, 7 backoff attempts, a 50 ms
    /// DIFS, a 10% utilization target (0.1) and a -115 dBm threshold.
    fn default() -> (c: Self)
        ensures
            c == (CsmaConfig {
                cw_min: 16,
                cw_max: 256,
                slot_time_ms: 10,
                max_backoff_attempts: 7,
                difs_ms: 50,
                target_utilization: 0x3DCC_CCCD,
                cad_threshold: 0xC2E6_0000,
            }),
    {
        CsmaConfig {
            cw_min: 16,
            cw_max: 256,
            slot_time_ms: 10,
            max_backoff_attempts: 7,
            difs_ms: 50,
            target_utilization: 0x3DCC_CCCD,
            cad_threshold: 0xC2E6_0000,
        }
    }
}

/// Whole milliseconds since `t` (`t.elapsed().as_millis()`). Nothing is
/// stated of it: it depends on the clock.
#[verifier::external_body]
fn elapsed_ms(t: std::time::Instant) -> u128 {
    t.elapsed().as_millis()
}

/// Whole nanoseconds since `t` (`t.elapsed().as_nanos()`). Nothing is
/// stated of it: it depends on the clock.
#[verifier::external_body]
fn elapsed_ns(t: std::time::Instant) -> u128 {
    t.elapsed().as_nanos()
}

/// The current instant (`Instant::now`). Nothing is stated of it: it
/// depends on the clock.
#[verifier::external_body]
fn now() -> std::time::Instant {
    std::time::Instant::now()
}

impl BackoffState {
    /// Start a backoff: the window is the smaller of `cw_min` and the
    /// utilization-scaled window, capped at `cw_max`; a backoff of fewer
    /// slots than the window is drawn from the clock's jitter (the
    /// remainder of `jitter_ns` by the window); the start time is now and
    /// one more attempt is counted.
    fn start(&mut self, scaled_window: u32, cw_min: u32, cw_max: u32, jitter_ns: u128)
        requires
            scaled_window > 0,
            cw_min > 0,
            cw_max > 0,
            old(self).attempts < 255,
        ensures
            final(self).contention_window == min_u32(min_u32(cw_min, scaled_window), cw_max),
            final(self).remaining_slots == (jitter_ns % (final(self).contention_window as u128)) as u32,
            final(self).remaining_slots < final(self).contention_window,
            final(self).start_time.is_some(),
            final(self).attempts == old(self).attempts + 1,
    {
        let base_cw = if cw_min < scaled_window { cw_min } else { scaled_window };
        self.contention_window = if base_cw < cw_max { base_cw } else { cw_max };
        let random = (jitter_ns % (self.contention_window as u128)) as u32;
        self.remaining_slots = random;
        self.start_time = Some(now());
        self.attempts = self.attempts + 1;
    }
}

/// The smaller of two counts.
pub open spec fn min_u32(a: u32, b: u32) -> u32 {
    if a < b {
        a
    } else {
        b
    }
}

/// The backoff of `new` is that of `old`: window, slots, attempts and
/// whether it has started.
pub open spec fn same_backoff(old: MacLayer, new: MacLayer) -> bool {
    &&& new.window() == old.window()
    &&& new.remaining_slots() == old.remaining_slots()
    &&& new.attempts() == old.attempts()
    &&& new.backoff_started() == old.backoff_started()
}

/// One channel access decision: from `old` to `new` with decision `d`,
/// for a channel busy or not, the duty cycle limit reached or not, the
/// utilization-scaled window, the whole milliseconds since the last state
/// change and the clock jitter a new backoff draws from.
pub open spec fn mac_step_outcome(
    old: MacLayer,
    new: MacLayer,
    d: TransmitDecision,
    channel_busy: bool,
    duty_cycle_reached: bool,
    scaled_window: u32,
    elapsed_ms: u128,
    jitter_ns: u128,
) -> bool {
    let st = if channel_busy && old.state_spec() != ChannelState::Transmitting {
        ChannelState::Busy
    } else {
        old.state_spec()
    };
    let cfg = old.config();
    &&& new.queue() == old.queue()
    &&& new.config() == cfg
    &&& new.queue_limit() == old.queue_limit()
    &&& match st {
        ChannelState::Idle => {
            &&& new.state_spec() == ChannelState::Idle
            &&& same_backoff(old, new)
            &&& d == (if duty_cycle_reached {
                TransmitDecision::DutyCycleLimit
            } else if elapsed_ms >= cfg.difs_ms {
                if old.queue().len() == 0 {
                    TransmitDecision::NothingToSend
                } else {
                    TransmitDecision::TransmitNow
                }
            } else {
                TransmitDecision::WaitDifs
            })
        },
        ChannelState::Busy | ChannelState::Receiving => {
            if !old.backoff_started() {
                let w = min_u32(min_u32(cfg.cw_min, scaled_window), cfg.cw_max);
                &&& new.window() == w
                &&& new.remaining_slots() == (jitter_ns % (w as u128)) as u32
                &&& new.attempts() == old.attempts() + 1
                &&& new.backoff_started()
                &&& new.state_spec() == ChannelState::Backoff
                &&& d == TransmitDecision::Backoff(new.remaining_slots())
            } else {
                &&& new.state_spec() == st
                &&& same_backoff(old, new)
                &&& d == TransmitDecision::Backoff(old.remaining_slots())
            }
        },
        ChannelState::Backoff => {
            let passed = (elapsed_ms / (cfg.slot_time_ms as u128)) as u32;
            if passed >= old.remaining_slots() {
                if old.attempts() >= cfg.max_backoff_attempts {
                    &&& d == TransmitDecision::MaxBackoffExceeded
                    &&& new.state_spec() == ChannelState::Backoff
                    &&& new.window() == cfg.cw_min
                    &&& new.remaining_slots() == 0
                    &&& new.attempts() == 0
                    &&& !new.backoff_started()
                } else {
                    &&& d == TransmitDecision::TransmitNow
                    &&& new.state_spec() == ChannelState::Idle
                    &&& same_backoff(old, new)
                }
            } else {
                &&& d == TransmitDecision::Backoff((old.remaining_slots() - passed) as u32)
                &&& new.state_spec() == ChannelState::Backoff
                &&& new.remaining_slots() == old.remaining_slots() - passed
                &&& new.window() == old.window()
                &&& new.attempts() == old.attempts()
                &&& new.backoff_started() == old.backoff_started()
            }
        },
        ChannelState::Transmitting => {
            &&& d == TransmitDecision::AlreadyTransmitting
            &&& new.state_spec() == ChannelState::Transmitting
            &&& same_backoff(old, new)
        },
    }
}

/// MAC layer: channel state, backoff and the transmit queue.
///
/// Airtime accounting is the caller's: it decides whether the duty cycle
/// limit is reached and scales the contention window with the utilization.
#[derive(Debug)]
pub struct MacLayer {
    /// Configuration
    config: CsmaConfig,
    /// Current channel state
    state: ChannelState,
    /// Backoff state
    backoff: BackoffState,
    /// Transmit queue
    tx_queue: std::collections::VecDeque<Vec<u8>>,
    /// Maximum queue size
    pub max_queue_size: usize,
    /// Time of last state change
    state_changed: std::time::Instant,
}

impl MacLayer {
    /// The configuration.
    pub closed spec fn config(&self) -> CsmaConfig {
        self.config
    }

    /// The channel state.
    pub closed spec fn state_spec(&self) -> ChannelState {
        self.state
    }

    /// The queued packets, oldest first.
    pub closed spec fn queue(&self) -> Seq<Seq<u8>> {
        self.tx_queue@.map_values(|p: Vec<u8>| p@)
    }

    /// Whether a backoff has started.
    pub closed spec fn backoff_started(&self) -> bool {
        self.backoff.start_time.is_some()
    }

    /// The backoff attempts counted.
    pub closed spec fn attempts(&self) -> u8 {
        self.backoff.attempts
    }

    /// The backoff slots left.
    pub closed spec fn remaining_slots(&self) -> u32 {
        self.backoff.remaining_slots
    }

    /// The most packets the queue takes.
    pub closed spec fn queue_limit(&self) -> usize {
        self.max_queue_size
    }

    /// The current contention window, in slots.
    pub closed spec fn window(&self) -> u32 {
        self.backoff.contention_window
    }

    /// The backoff invariant: windows that can be doubled, slots and a
    /// clock to measure them, and at most one attempt, counted only while
    /// a backoff has started.
    pub closed spec fn wf(&self) -> bool {
        &&& self.config.cw_min > 0
        &&& self.config.cw_max > 0
        &&& self.config.cw_min <= 0x7FFF_FFFF
        &&& self.config.cw_max <= 0x7FFF_FFFF
        &&& self.config.slot_time_ms > 0
        &&& self.backoff.contention_window <= 0x7FFF_FFFF
        &&& self.backoff.attempts <= 1
        &&& (self.backoff.start_time.is_none() ==> self.backoff.attempts == 0)
    }

    /// Create a new MAC layer: idle, an empty queue of at most 16 packets
    /// and the minimum window. The windows must be positive and doubling
    /// them must fit, and slots must have a length.
    pub fn new(config: CsmaConfig) -> (m: Self)
        requires
            config.cw_min > 0,
            config.cw_max > 0,
            config.cw_min <= 0x7FFF_FFFF,
            config.cw_max <= 0x7FFF_FFFF,
            config.slot_time_ms > 0,
        ensures
            m.wf(),
            m.config() == config,
            m.state_spec() == ChannelState::Idle,
            m.queue() == Seq::<Seq<u8>>::empty(),
            m.queue_limit() == 16,
            m.window() == config.cw_min,
    {
        MacLayer {
            backoff: BackoffState::new(config.cw_min),
            config,
            state: ChannelState::Idle,
            tx_queue: std::collections::VecDeque::new(),
            max_queue_size: 16,
            state_changed: now(),
        }
    }

    fn set_state(&mut self, state: ChannelState)
        ensures
            final(self).state == state,
            final(self).config == old(self).config,
            final(self).backoff == old(self).backoff,
            final(self).tx_queue@ == old(self).tx_queue@,
            final(self).queue_limit() == old(self).queue_limit(),
    {
        if self.state != state {
            self.state = state;
            self.state_changed = now();
        }
    }

    /// Queue a packet for transmission: refused when the queue is full.
    pub fn queue_tx(&mut self, packet: Vec<u8>) -> (r: Result<(), MacError>)
        requires
            old(self).wf(),
        ensures
            final(self).wf(),
            old(self).queue().len() >= old(self).queue_limit() ==> r == Err::<(), MacError>(MacError::QueueFull)
                && final(self).queue() == old(self).queue(),
            old(self).queue().len() < old(self).queue_limit() ==> r == Ok::<(), MacError>(()) && final(self).queue() == old(self).queue().push(packet@),
            final(self).state_spec() == old(self).state_spec(),
            final(self).config() == old(self).config(),
            final(self).window() == old(self).window(),
            final(self).queue_limit() == old(self).queue_limit(),
    {
        if self.tx_queue.len() >= self.max_queue_size {
            return Err(MacError::QueueFull);
        }
        let ghost q0 = self.tx_queue@;
        self.tx_queue.push_back(packet);
        proof {
            assert(self.tx_queue@.map_values(|p: Vec<u8>| p@) =~= q0.map_values(|p: Vec<u8>| p@).push(
                packet@,
            ));
        }
        Ok(())
    }

    /// Check if we can transmit. A busy channel, unless we transmit,
    /// makes the state busy first. Idle: at the duty cycle limit, no;
    /// after a DIFS of quiet, transmit (or nothing to send); else wait.
    /// Busy or receiving: start a backoff if none runs, and report its
    /// slots. In backoff (the channel quiet): when the slots have passed,
    /// give up after the maximum attempts, else transmit; otherwise count
    /// the passed slots down. A busy channel is never told to transmit.
    /// The clock is read once for the time since the last state change
    /// and once for the jitter a new backoff draws from; `mac_step` decides.
    pub fn can_transmit(&mut self, channel_busy: bool, duty_cycle_reached: bool, scaled_window: u32) -> (d:
        TransmitDecision)
        requires
            old(self).wf(),
            scaled_window > 0,
        ensures
            final(self).wf(),
            channel_busy ==> d != TransmitDecision::TransmitNow,
            exists|elapsed: u128, jitter: u128|
                mac_step_outcome(
                    *old(self),
                    *final(self),
                    d,
                    channel_busy,
                    duty_cycle_reached,
                    scaled_window,
                    elapsed,
                    jitter,
                ),
    {
        let elapsed = elapsed_ms(self.state_changed);
        let jitter = elapsed_ns(now());
        let d = self.mac_step(channel_busy, duty_cycle_reached, scaled_window, elapsed, jitter);
        proof {
            assert(mac_step_outcome(
                *old(self),
                *self,
                d,
                channel_busy,
                duty_cycle_reached,
                scaled_window,
                elapsed,
                jitter,
            ));
        }
        d
    }

    /// One channel access decision, given the whole milliseconds since the
    /// last state change and the clock jitter a new backoff draws from:
    /// exactly `mac_step_outcome`.
    pub fn mac_step(
        &mut self,
        channel_busy: bool,
        duty_cycle_reached: bool,
        scaled_window: u32,
        elapsed_ms: u128,
        jitter_ns: u128,
    ) -> (d: TransmitDecision)
        requires
            old(self).wf(),
            scaled_window > 0,
        ensures
            final(self).wf(),
            channel_busy ==> d != TransmitDecision::TransmitNow,
            mac_step_outcome(
                *old(self),
                *final(self),
                d,
                channel_busy,
                duty_cycle_reached,
                scaled_window,
                elapsed_ms,
                jitter_ns,
            ),
    {
        if channel_busy && self.state != ChannelState::Transmitting {
            self.set_state(ChannelState::Busy);
        }
        match self.state {
            ChannelState::Idle => {
                if duty_cycle_reached {
                    return TransmitDecision::DutyCycleLimit;
                }
                proof {
                    assert(self.queue().len() == self.tx_queue@.len());
                }
                if elapsed_ms >= self.config.difs_ms as u128 && !channel_busy {
                    if self.tx_queue.len() == 0 {
                        TransmitDecision::NothingToSend
                    } else {
                        TransmitDecision::TransmitNow
                    }
                } else {
                    TransmitDecision::WaitDifs
                }
            },
            ChannelState::Busy | ChannelState::Receiving => {
                if self.backoff.start_time.is_none() {
                    self.backoff.start(scaled_window, self.config.cw_min, self.config.cw_max, jitter_ns);
                    self.set_state(ChannelState::Backoff);
                }
                TransmitDecision::Backoff(self.backoff.remaining_slots)
            },
            ChannelState::Backoff => {
                if channel_busy {
                    TransmitDecision::Backoff(self.backoff.remaining_slots)
                } else {
                    let elapsed_slots = elapsed_ms / (self.config.slot_time_ms as u128);
                    let passed = #[verifier::truncate] (elapsed_slots as u32);
                    if passed >= self.backoff.remaining_slots {
                        if self.backoff.attempts >= self.config.max_backoff_attempts {
                            self.backoff.reset(self.config.cw_min);
                            return TransmitDecision::MaxBackoffExceeded;
                        }
                        self.set_state(ChannelState::Idle);
                        TransmitDecision::TransmitNow
                    } else {
                        self.backoff.remaining_slots = self.backoff.remaining_slots - passed;
                        TransmitDecision::Backoff(self.backoff.remaining_slots)
                    }
                }
            },
            ChannelState::Transmitting => TransmitDecision::AlreadyTransmitting,
        }
    }

    /// Start transmitting (call after TransmitNow): the oldest queued
    /// packet, the state transmitting and the backoff reset; `None` when
    /// nothing is queued.
    pub fn start_tx(&mut self) -> (p: Option<Vec<u8>>)
        requires
            old(self).wf(),
        ensures
            final(self).wf(),
            final(self).config() == old(self).config(),
            final(self).queue_limit() == old(self).queue_limit(),
            match p {
                Some(packet) => {
                    &&& old(self).queue().len() > 0
                    &&& packet@ == old(self).queue()[0]
                    &&& final(self).queue() == old(self).queue().drop_first()
                    &&& final(self).state_spec() == ChannelState::Transmitting
                    &&& final(self).window() == old(self).config().cw_min
                },
                None => {
                    &&& old(self).queue().len() == 0
                    &&& final(self).queue() == old(self).queue()
                    &&& final(self).state_spec() == old(self).state_spec()
                    &&& final(self).window() == old(self).window()
                },
            },
    {
        let ghost q0 = self.tx_queue@;
        match self.tx_queue.pop_front() {
            Some(packet) => {
                proof {
                    assert(self.tx_queue@.map_values(|p: Vec<u8>| p@) =~= q0.map_values(
                        |p: Vec<u8>| p@,
                    ).drop_first());
                }
                self.set_state(ChannelState::Transmitting);
                self.backoff.reset(self.config.cw_min);
                Some(packet)
            },
            None => None,
        }
    }

    /// Transmission complete: the channel is idle again.
    pub fn tx_complete(&mut self)
        requires
            old(self).wf(),
        ensures
            final(self).wf(),
            final(self).state_spec() == ChannelState::Idle,
            final(self).queue() == old(self).queue(),
            final(self).config() == old(self).config(),
            final(self).window() == old(self).window(),
            final(self).queue_limit() == old(self).queue_limit(),
    {
        self.set_state(ChannelState::Idle);
    }

    /// Reception started.
    pub fn rx_start(&mut self)
        requires
            old(self).wf(),
        ensures
            final(self).wf(),
            final(self).state_spec() == ChannelState::Receiving,
            final(self).queue() == old(self).queue(),
            final(self).config() == old(self).config(),
            final(self).window() == old(self).window(),
            final(self).queue_limit() == old(self).queue_limit(),
    {
        self.set_state(ChannelState::Receiving);
    }

    /// Reception complete: the channel is idle again.
    pub fn rx_complete(&mut self)
        requires
            old(self).wf(),
        ensures
            final(self).wf(),
            final(self).state_spec() == ChannelState::Idle,
            final(self).queue() == old(self).queue(),
            final(self).config() == old(self).config(),
            final(self).window() == old(self).window(),
            final(self).queue_limit() == old(self).queue_limit(),
    {
        self.set_state(ChannelState::Idle);
    }

    /// Collision detected (transmission failed): the window doubles, up to
    /// the maximum, and a backoff follows.
    pub fn collision(&mut self)
        requires
            old(self).wf(),
        ensures
            final(self).wf(),
            final(self).window() == (if old(self).window() * 2 < old(self).config().cw_max {
                old(self).window() * 2
            } else {
                old(self).config().cw_max as int
            }),
            final(self).state_spec() == ChannelState::Backoff,
            final(self).queue() == old(self).queue(),
            final(self).config() == old(self).config(),
            final(self).queue_limit() == old(self).queue_limit(),
    {
        self.backoff.double_window(self.config.cw_max);
        self.set_state(ChannelState::Backoff);
    }

    /// Get current state
    pub fn state(&self) -> (s: ChannelState)
        ensures
            s == self.state_spec(),
    {
        self.state
    }

    /// Get queue depth
    pub fn queue_depth(&self) -> (n: usize)
        ensures
            n == self.queue().len(),
    {
        self.tx_queue.len()
    }

    /// Clear the transmit queue
    pub fn clear_queue(&mut self)
        requires
            old(self).wf(),
        ensures
            final(self).wf(),
            final(self).queue() == Seq::<Seq<u8>>::empty(),
            final(self).state_spec() == old(self).state_spec(),
            final(self).config() == old(self).config(),
            final(self).window() == old(self).window(),
            final(self).queue_limit() == old(self).queue_limit(),
    {
        self.tx_queue.clear();
        proof {
            assert(self.tx_queue@.map_values(|p: Vec<u8>| p@) =~= Seq::<Seq<u8>>::empty());
        }
    }
}

impl Default for MacLayer {
    /// A MAC layer with the default configuration.
    fn default() -> (m: Self)
        ensures
            m.wf(),
            m.config().cw_min == 16,
            m.config().cw_max == 256,
            m.state_spec() == ChannelState::Idle,
            m.queue() == Seq::<Seq<u8>>::empty(),
            m.queue_limit() == 16,
    {
        Self::new(CsmaConfig::default())
    }
}

} // verus!
