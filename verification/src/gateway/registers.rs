//! The registers of the meter, and how a block of them is read.
//!
//! Every measured value is a binary32 number in two consecutive holding
//! registers, the high half first.  All of them lie in one contiguous range, so
//! a snapshot costs one read for that block and one for the clock.

use vstd::prelude::*;
use vstd::string::*;

use crate::binary32::Binary32;
use crate::text;
use crate::text::decimal;

verus! {

/// Default Modbus TCP port.
pub const DEFAULT_MODBUS_PORT: u16 = 502;

/// Phases of the installation.
pub const PHASE_COUNT: usize = 3;

/// Registers from a value of one phase to that of the next.
pub const PHASE_STRIDE: u16 = 2;

/// The meter's clock, a signed 32-bit number of seconds.
pub const SYSTIME: u16 = 4;

/// The first register of the block of measured values.
pub const MEASUREMENT_BLOCK_START: u16 = 19000;

/// The number of registers in the block of measured values.
pub const MEASUREMENT_BLOCK_LEN: u16 = 122;

pub const VOLTAGE_L1: u16 = 19000;

pub const CURRENT_L1: u16 = 19012;

pub const CURRENT_SUM: u16 = 19018;

pub const REAL_POWER_L1: u16 = 19020;

pub const REAL_POWER_SUM3: u16 = 19026;

pub const APPARENT_POWER_L1: u16 = 19028;

pub const APPARENT_POWER_SUM3: u16 = 19034;

pub const REACTIVE_POWER_L1: u16 = 19036;

pub const REACTIVE_POWER_SUM3: u16 = 19042;

pub const COS_PHI_L1: u16 = 19044;

pub const FREQUENCY: u16 = 19050;

pub const REAL_ENERGY_CONSUMED_L1: u16 = 19062;

pub const THD_VOLTAGE_L1: u16 = 19110;

pub const THD_CURRENT_L1: u16 = 19116;

/// One value for each phase.
pub type Phases = [Binary32; 3];

/// Everything the gateway reads from the meter at once.  A value the meter
/// cannot determine is a NaN.
#[derive(Clone, Copy, Debug)]
pub struct Snapshot {
    pub systime: i32,
    pub frequency: Binary32,
    pub voltage: Phases,
    pub current: Phases,
    pub real_power: Phases,
    pub real_power_sum3: Binary32,
    pub apparent_power: Phases,
    pub apparent_power_sum3: Binary32,
    pub reactive_power: Phases,
    pub reactive_power_sum3: Binary32,
    pub cos_phi: Phases,
    pub real_energy_consumed: Phases,
    pub thd_voltage: Phases,
    pub thd_current: Phases,
}

/// The 32 bits in two registers, the high half first.
pub open spec fn joined_bits(high: u16, low: u16) -> u32 {
    (high * 0x1_0000 + low) as u32
}

/// 32 bits as a signed number.
pub open spec fn signed_bits(bits: u32) -> i32 {
    (if bits < 0x8000_0000 {
        bits as int
    } else {
        bits - 0x1_0000_0000
    }) as i32
}

/// What is said when a value does not lie in the registers that were read.
pub open spec fn short_read(addr: u16, got: nat) -> Seq<char> {
    "expected 2 registers at "@ + text::decimal_digits(addr as nat) + ", got "@
        + text::decimal_digits(got)
}

fn short_read_message(addr: u16, got: usize) -> (message: String)
    ensures
        message@ == short_read(addr, got as nat),
{
    let mut message: String = "expected 2 registers at ".to_owned();
    message.append(decimal(addr as u64).as_str());
    message.append(", got ");
    message.append(decimal(got as u64).as_str());
    message
}

fn join_bits(high: u16, low: u16) -> (bits: u32)
    ensures
        bits == joined_bits(high, low),
{
    high as u32 * 0x1_0000 + low as u32
}

/// The value in the two registers that were read at `addr`.
pub fn decode_value(addr: u16, registers: &Vec<u16>) -> (result: Result<Binary32, String>)
    ensures
        match result {
            Ok(value) => registers@.len() == 2 && value.bits == joined_bits(
                registers@[0],
                registers@[1],
            ),
            Err(message) => registers@.len() != 2 && message@ == short_read(
                addr,
                registers@.len(),
            ),
        },
{
    if registers.len() != 2 {
        return Err(short_read_message(addr, registers.len()));
    }
    Ok(Binary32 { bits: join_bits(registers[0], registers[1]) })
}

/// Consecutive registers, read at once.
pub struct RegisterBlock {
    pub start: u16,
    pub registers: Vec<u16>,
}

impl RegisterBlock {
    /// How many of the two registers at an address the block holds.
    pub open spec fn held(&self, addr: u16) -> nat {
        if addr < self.start || addr >= self.start + self.registers@.len() {
            0
        } else if addr + 1 == self.start + self.registers@.len() {
            1
        } else {
            2
        }
    }

    /// The 32 bits at an address.
    pub open spec fn bits(&self, addr: u16) -> u32 {
        joined_bits(self.registers@[addr - self.start], self.registers@[addr - self.start + 1])
    }

    fn bits_at(&self, addr: u16) -> (result: Result<u32, String>)
        ensures
            match result {
                Ok(bits) => self.held(addr) == 2 && bits == self.bits(addr),
                Err(message) => self.held(addr) < 2 && message@ == short_read(
                    addr,
                    self.held(addr),
                ),
            },
    {
        if addr < self.start || (addr - self.start) as usize >= self.registers.len() {
            return Err(short_read_message(addr, 0));
        }
        let offset: usize = (addr - self.start) as usize;
        if self.registers.len() - offset < 2 {
            return Err(short_read_message(addr, 1));
        }
        Ok(join_bits(self.registers[offset], self.registers[offset + 1]))
    }

    /// The measured value at an address.
    pub fn f32_at(&self, addr: u16) -> (result: Result<Binary32, String>)
        ensures
            match result {
                Ok(value) => self.held(addr) == 2 && value.bits == self.bits(addr),
                Err(message) => self.held(addr) < 2 && message@ == short_read(
                    addr,
                    self.held(addr),
                ),
            },
    {
        match self.bits_at(addr) {
            Ok(bits) => Ok(Binary32 { bits }),
            Err(message) => Err(message),
        }
    }

    /// The signed integer at an address.
    pub fn i32_at(&self, addr: u16) -> (result: Result<i32, String>)
        ensures
            match result {
                Ok(value) => self.held(addr) == 2 && value == signed_bits(self.bits(addr)),
                Err(message) => self.held(addr) < 2 && message@ == short_read(
                    addr,
                    self.held(addr),
                ),
            },
    {
        match self.bits_at(addr) {
            Ok(bits) => Ok(
                if bits < 0x8000_0000 {
                    bits as i32
                } else {
                    (bits as i64 - 0x1_0000_0000) as i32
                },
            ),
            Err(message) => Err(message),
        }
    }

    /// The block holds every register of the measured values.
    pub open spec fn holds_measurements(&self) -> bool {
        &&& self.start <= MEASUREMENT_BLOCK_START
        &&& self.start + self.registers@.len() >= MEASUREMENT_BLOCK_START + MEASUREMENT_BLOCK_LEN
    }

    /// The values of the three phases from the address of the first.
    pub open spec fn phases(&self, addr: u16) -> Seq<u32> {
        Seq::new(3, |phase: int| self.bits((addr + phase * PHASE_STRIDE) as u16))
    }

    fn value(&self, addr: u16) -> (value: Binary32)
        requires
            self.holds_measurements(),
            MEASUREMENT_BLOCK_START <= addr < MEASUREMENT_BLOCK_START + MEASUREMENT_BLOCK_LEN - 1,
        ensures
            value.bits == self.bits(addr),
    {
        let offset: usize = (addr - self.start) as usize;
        Binary32 { bits: join_bits(self.registers[offset], self.registers[offset + 1]) }
    }

    fn phase_values(&self, addr: u16) -> (values: Phases)
        requires
            self.holds_measurements(),
            MEASUREMENT_BLOCK_START <= addr < MEASUREMENT_BLOCK_START + MEASUREMENT_BLOCK_LEN - 5,
        ensures
            bits_of(values) == self.phases(addr),
    {
        let values: Phases = [
            self.value(addr),
            self.value(addr + PHASE_STRIDE),
            self.value(addr + 2 * PHASE_STRIDE),
        ];
        assert(bits_of(values) =~= self.phases(addr));
        values
    }
}

/// The encodings of three phase values.
pub open spec fn bits_of(values: Phases) -> Seq<u32> {
    seq![values[0].bits, values[1].bits, values[2].bits]
}

/// A snapshot holds what the registers say.
pub open spec fn snapshot_of(snapshot: Snapshot, systime: i32, block: RegisterBlock) -> bool {
    &&& snapshot.systime == systime
    &&& snapshot.frequency.bits == block.bits(FREQUENCY)
    &&& bits_of(snapshot.voltage) == block.phases(VOLTAGE_L1)
    &&& bits_of(snapshot.current) == block.phases(CURRENT_L1)
    &&& bits_of(snapshot.real_power) == block.phases(REAL_POWER_L1)
    &&& snapshot.real_power_sum3.bits == block.bits(REAL_POWER_SUM3)
    &&& bits_of(snapshot.apparent_power) == block.phases(APPARENT_POWER_L1)
    &&& snapshot.apparent_power_sum3.bits == block.bits(APPARENT_POWER_SUM3)
    &&& bits_of(snapshot.reactive_power) == block.phases(REACTIVE_POWER_L1)
    &&& snapshot.reactive_power_sum3.bits == block.bits(REACTIVE_POWER_SUM3)
    &&& bits_of(snapshot.cos_phi) == block.phases(COS_PHI_L1)
    &&& bits_of(snapshot.real_energy_consumed) == block.phases(REAL_ENERGY_CONSUMED_L1)
    &&& bits_of(snapshot.thd_voltage) == block.phases(THD_VOLTAGE_L1)
    &&& bits_of(snapshot.thd_current) == block.phases(THD_CURRENT_L1)
}

/// Reads a snapshot out of the clock registers and the block of measured
/// values.
pub fn decode_snapshot(clock: &RegisterBlock, block: &RegisterBlock) -> (result: Result<
    Snapshot,
    String,
>)
    ensures
        match result {
            Ok(snapshot) => clock.held(SYSTIME) == 2 && block.holds_measurements() && snapshot_of(
                snapshot,
                signed_bits(clock.bits(SYSTIME)),
                *block,
            ),
            Err(message) => if clock.held(SYSTIME) < 2 {
                message@ == short_read(SYSTIME, clock.held(SYSTIME))
            } else {
                !block.holds_measurements() && message@
                    == "the block of measured values is incomplete"@
            },
        },
{
    let systime: i32 = match clock.i32_at(SYSTIME) {
        Ok(systime) => systime,
        Err(message) => return Err(message),
    };
    let needed: u32 = MEASUREMENT_BLOCK_START as u32 + MEASUREMENT_BLOCK_LEN as u32;
    if block.start > MEASUREMENT_BLOCK_START || block.registers.len() < (needed
        - block.start as u32) as usize {
        return Err("the block of measured values is incomplete".to_owned());
    }
    Ok(
        Snapshot {
            systime,
            frequency: block.value(FREQUENCY),
            voltage: block.phase_values(VOLTAGE_L1),
            current: block.phase_values(CURRENT_L1),
            real_power: block.phase_values(REAL_POWER_L1),
            real_power_sum3: block.value(REAL_POWER_SUM3),
            apparent_power: block.phase_values(APPARENT_POWER_L1),
            apparent_power_sum3: block.value(APPARENT_POWER_SUM3),
            reactive_power: block.phase_values(REACTIVE_POWER_L1),
            reactive_power_sum3: block.value(REACTIVE_POWER_SUM3),
            cos_phi: block.phase_values(COS_PHI_L1),
            real_energy_consumed: block.phase_values(REAL_ENERGY_CONSUMED_L1),
            thd_voltage: block.phase_values(THD_VOLTAGE_L1),
            thd_current: block.phase_values(THD_CURRENT_L1),
        },
    )
}

/// The 32 bits that stand in the register with this address, the high half, and
/// the one behind it.
pub open spec fn word_at(block: RegisterBlock, address: int) -> int {
    let at = address - block.start;
    block.registers@[at] * 0x1_0000 + block.registers@[at + 1]
}

/// A snapshot has every value from its own registers: those of the three phases
/// stand two registers apart, in the order of the phases.
pub proof fn lemma_every_value_has_its_own_registers(
    snapshot: Snapshot,
    systime: i32,
    block: &RegisterBlock,
    phase: int,
)
    requires
        block.holds_measurements(),
        snapshot_of(snapshot, systime, *block),
        0 <= phase < 3,
    ensures
        snapshot.systime == systime,
        snapshot.voltage[phase].bits == word_at(*block, 19000 + 2 * phase),
        snapshot.current[phase].bits == word_at(*block, 19012 + 2 * phase),
        snapshot.real_power[phase].bits == word_at(*block, 19020 + 2 * phase),
        snapshot.apparent_power[phase].bits == word_at(*block, 19028 + 2 * phase),
        snapshot.reactive_power[phase].bits == word_at(*block, 19036 + 2 * phase),
        snapshot.cos_phi[phase].bits == word_at(*block, 19044 + 2 * phase),
        snapshot.real_energy_consumed[phase].bits == word_at(*block, 19062 + 2 * phase),
        snapshot.thd_voltage[phase].bits == word_at(*block, 19110 + 2 * phase),
        snapshot.thd_current[phase].bits == word_at(*block, 19116 + 2 * phase),
        snapshot.frequency.bits == word_at(*block, 19050),
        snapshot.real_power_sum3.bits == word_at(*block, 19026),
        snapshot.apparent_power_sum3.bits == word_at(*block, 19034),
        snapshot.reactive_power_sum3.bits == word_at(*block, 19042),
{
    assert(phase == 0 || phase == 1 || phase == 2);
    assert(bits_of(snapshot.voltage)[phase] == block.phases(19000)[phase]);
    assert(bits_of(snapshot.current)[phase] == block.phases(19012)[phase]);
    assert(bits_of(snapshot.real_power)[phase] == block.phases(19020)[phase]);
    assert(bits_of(snapshot.apparent_power)[phase] == block.phases(19028)[phase]);
    assert(bits_of(snapshot.reactive_power)[phase] == block.phases(19036)[phase]);
    assert(bits_of(snapshot.cos_phi)[phase] == block.phases(19044)[phase]);
    assert(bits_of(snapshot.real_energy_consumed)[phase] == block.phases(19062)[phase]);
    assert(bits_of(snapshot.thd_voltage)[phase] == block.phases(19110)[phase]);
    assert(bits_of(snapshot.thd_current)[phase] == block.phases(19116)[phase]);
}

/// The clock counts in two's complement.
pub proof fn lemma_the_clock_is_signed(bits: u32)
    ensures
        bits <= i32::MAX ==> signed_bits(bits) == bits,
        bits > i32::MAX ==> signed_bits(bits) == bits - 0x1_0000_0000,
{
}

/// The value in two registers: the first is the high half.
pub proof fn lemma_the_high_half_comes_first(high: u16, low: u16)
    ensures
        joined_bits(high, low) / 0x1_0000 == high,
        joined_bits(high, low) % 0x1_0000 == low,
{
}

/// The block that a snapshot needs runs from register 19000 to register 19121,
/// and an address outside a block holds nothing there.
pub proof fn lemma_what_a_block_holds(block: &RegisterBlock, address: u16)
    ensures
        block.holds_measurements() <==> block.start <= 19000 && block.start
            + block.registers@.len() >= 19122,
        block.held(address) == 2 <==> block.start <= address && address + 2 <= block.start
            + block.registers@.len(),
        block.held(address) == 1 <==> block.start <= address && address + 1 == block.start
            + block.registers@.len(),
        block.held(address) <= 2,
{
}

/// A read that came back short says where, and how much there was.
pub proof fn lemma_what_is_said_of_a_short_read(address: u16, got: nat)
    ensures
        short_read(address, got) == "expected 2 registers at "@ + text::decimal_digits(
            address as nat,
        ) + ", got "@ + text::decimal_digits(got),
{
}

} // verus!
