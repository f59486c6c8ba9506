//! Register-level protocol of the TMAG5273 3-axis Hall-effect sensor: which
//! I2C transactions the driver makes, in which order, and how the bytes it
//! reads become values. The bus itself is driven by the caller.

pub mod reg;
pub mod types;

use vstd::prelude::*;
use self::types::{DeviceId, DeviceVersion, MagData, ManufacturerId, TMag5273Error};

verus! {

/// The sensor's I2C address unless configured otherwise.
pub const DEFAULT_ADDRESS: u8 = 0x22;

/// A TMAG5273 on the bus `I2C`.
pub struct TMag5273<I2C> {
    i2c: I2C,
    address: u8,
    #[allow(dead_code)]
    version: DeviceVersion,
}

impl<I2C> TMag5273<I2C> {
    /// The bus the driver talks over.
    pub closed spec fn bus(&self) -> I2C {
        self.i2c
    }

    /// The device's I2C address.
    pub closed spec fn i2c_address(&self) -> u8 {
        self.address
    }

    /// The sensor variant the driver was made for.
    pub closed spec fn device_version(&self) -> DeviceVersion {
        self.version
    }

    /// Create a driver instance using the default I2C address (0x22).
    pub fn new(i2c: I2C, version: DeviceVersion) -> (r: Result<Self, TMag5273Error>)
        ensures
            r matches Ok(d) && d.bus() == i2c && d.i2c_address() == DEFAULT_ADDRESS
                && d.device_version() == version,
    {
        Ok(Self { i2c, address: DEFAULT_ADDRESS, version })
    }

    /// Create a driver instance with a non-default I2C address.
    pub fn new_with_address(i2c: I2C, version: DeviceVersion, address: u8) -> (r: Result<
        Self,
        TMag5273Error,
    >)
        ensures
            r matches Ok(d) && d.bus() == i2c && d.i2c_address() == address && d.device_version()
                == version,
    {
        Ok(Self { i2c, address, version })
    }

    /// Consume the driver and return the underlying I2C bus.
    pub fn release(self) -> (i2c: I2C)
        ensures
            i2c == self.bus(),
    {
        self.i2c
    }

    /// The device's I2C address.
    pub fn address(&self) -> (a: u8)
        ensures
            a == self.i2c_address(),
    {
        self.address
    }

    /// The bus, for performing the transactions the driver asks for.
    pub fn bus_mut(&mut self) -> (bus: &mut I2C)
        ensures
            *bus == old(self).bus(),
            final(self).bus() == *final(bus),
            final(self).i2c_address() == old(self).i2c_address(),
            final(self).device_version() == old(self).device_version(),
    {
        &mut self.i2c
    }

    /// The transaction that writes `val` into register `reg`: the register
    /// address followed by the value, in one write.
    pub fn write_register_op(&self, reg: u8, val: u8) -> (op: BusOp)
        ensures
            op == register_write(self.i2c_address(), reg, val),
    {
        BusOp::Write { address: self.address, bytes: [reg, val] }
    }

    /// The transaction that reads `len` consecutive registers from `reg` on:
    /// the register address is written, then `len` bytes are read, in one
    /// transaction.
    pub fn read_registers_op(&self, reg: u8, len: usize) -> (op: BusOp)
        ensures
            op == register_read(self.i2c_address(), reg, len),
    {
        BusOp::WriteRead { address: self.address, register: reg, len }
    }

    /// The read of a snapshot of all enabled channels: a single 8-byte
    /// sequential read starting at T_MSB_RESULT (temperature, X, Y, Z).
    pub fn all_data_op(&self) -> (op: BusOp)
        ensures
            op == register_read(self.i2c_address(), reg::T_MSB_RESULT, 8),
    {
        self.read_registers_op(reg::T_MSB_RESULT, 8)
    }

    /// The read of the DEVICE_ID register (0x0D).
    pub fn device_id_op(&self) -> (op: BusOp)
        ensures
            op == register_read(self.i2c_address(), reg::DEVICE_ID, 1),
    {
        self.read_registers_op(reg::DEVICE_ID, 1)
    }

    /// The read of the 16-bit manufacturer ID (registers 0x0E–0x0F).
    pub fn manufacturer_id_op(&self) -> (op: BusOp)
        ensures
            op == register_read(self.i2c_address(), reg::MANUFACTURER_ID_LSB, 2),
    {
        self.read_registers_op(reg::MANUFACTURER_ID_LSB, 2)
    }
}

/// One I2C transaction with the sensor.
#[derive(Debug, Clone, Copy)]
pub enum BusOp {
    /// Write `bytes` to the device at `address`.
    Write { address: u8, bytes: [u8; 2] },
    /// Write `register` to the device at `address`, then read `len` bytes,
    /// in a single transaction.
    WriteRead { address: u8, register: u8, len: usize },
}

/// The write of `val` into register `reg` of the device at `address`.
pub open spec fn register_write(address: u8, reg: u8, val: u8) -> BusOp {
    BusOp::Write { address, bytes: [reg, val] }
}

/// The read of `len` registers from `reg` on of the device at `address`.
pub open spec fn register_read(address: u8, reg: u8, len: usize) -> BusOp {
    BusOp::WriteRead { address, register: reg, len }
}

/// Any bus error becomes [`TMag5273Error::I2c`]; a success is kept.
pub fn map_bus_result<T, E>(r: Result<T, E>) -> (out: Result<T, TMag5273Error>)
    ensures
        match r {
            Ok(v) => out == Ok::<T, TMag5273Error>(v),
            Err(_) => out == Err::<T, TMag5273Error>(TMag5273Error::I2c),
        },
{
    match r {
        Ok(v) => Ok(v),
        Err(_) => Err(TMag5273Error::I2c),
    }
}

// ── Decoding what was read ───────────────────────────────────────────────────

/// The 16-bit two's complement value of two bytes in big-endian order.
pub open spec fn be_i16(hi: u8, lo: u8) -> int {
    let v = hi * 256 + lo;
    if v >= 0x8000 {
        v - 0x1_0000
    } else {
        v
    }
}

/// The unsigned 16-bit value of two bytes in little-endian order.
pub open spec fn le_u16(lo: u8, hi: u8) -> int {
    hi * 256 + lo
}

/// Reads two big-endian bytes as a two's complement `i16`.
fn i16_from_be_bytes(hi: u8, lo: u8) -> (v: i16)
    ensures
        v == be_i16(hi, lo),
{
    let u: i32 = hi as i32 * 256 + lo as i32;
    if u >= 0x8000 {
        (u - 0x1_0000) as i16
    } else {
        u as i16
    }
}

/// Assembles the 8-byte T/X/Y/Z burst (each big-endian) into raw readings.
pub fn decode_all_data(buf: [u8; 8]) -> (data: MagData)
    ensures
        data.temperature == be_i16(buf[0], buf[1]),
        data.x == be_i16(buf[2], buf[3]),
        data.y == be_i16(buf[4], buf[5]),
        data.z == be_i16(buf[6], buf[7]),
{
    MagData {
        temperature: i16_from_be_bytes(buf[0], buf[1]),
        x: i16_from_be_bytes(buf[2], buf[3]),
        y: i16_from_be_bytes(buf[4], buf[5]),
        z: i16_from_be_bytes(buf[6], buf[7]),
    }
}

/// The DEVICE_ID register byte, verbatim.
pub fn decode_device_id(buf: [u8; 1]) -> (id: DeviceId)
    ensures
        id.0 == buf[0],
{
    DeviceId(buf[0])
}

/// The manufacturer ID from its two registers, LSB first.
pub fn decode_manufacturer_id(buf: [u8; 2]) -> (id: ManufacturerId)
    ensures
        id.0 == le_u16(buf[0], buf[1]),
{
    ManufacturerId(buf[1] as u16 * 256 + buf[0] as u16)
}

// ── Initialisation ───────────────────────────────────────────────────────────

/// The register writes of `init_default`, in the order they are made (all
/// other bits left at power-on defaults):
/// - SENSOR_CONFIG_1 [7:4] MAG_CH_EN = 0b0111  → enable X, Y, Z
/// - T_CONFIG        [0]   T_CH_EN   = 1        → enable temperature
/// - DEVICE_CONFIG_2 [1:0] OPERATING_MODE = 0b10 → continuous measurement,
///   last, so the sensor starts measuring with the right configuration.
pub open spec fn init_default_writes() -> Seq<(u8, u8)> {
    seq![(reg::SENSOR_CONFIG_1, 0x70u8), (reg::T_CONFIG, 0x01u8), (reg::DEVICE_CONFIG_2, 0x02u8)]
}

/// What the configuration sequence asks for next.
#[derive(Debug, Clone, Copy, PartialEq, Eq, Structural)]
pub enum InitAction {
    /// Write `value` into `register`, then report the result.
    WriteRegister { register: u8, value: u8 },
    /// All writes succeeded; the sensor is configured.
    Finished,
    /// A write failed with this error; no further write is made.
    Failed(TMag5273Error),
}

/// The action after `confirmed` successful writes, or after the failure
/// `failed`.
pub open spec fn init_action(confirmed: nat, failed: Option<TMag5273Error>) -> InitAction {
    match failed {
        Some(e) => InitAction::Failed(e),
        None => if confirmed < init_default_writes().len() {
            InitAction::WriteRegister {
                register: init_default_writes()[confirmed as int].0,
                value: init_default_writes()[confirmed as int].1,
            }
        } else {
            InitAction::Finished
        },
    }
}

/// Progress through the configuration writes of `init_default`: continuous
/// X/Y/Z + temperature measurement.
pub struct InitDefault {
    confirmed: usize,
    failed: Option<TMag5273Error>,
}

impl InitDefault {
    /// How many writes have succeeded so far.
    pub closed spec fn confirmed(&self) -> nat {
        self.confirmed as nat
    }

    /// The error of the write that failed, if one did.
    pub closed spec fn failure(&self) -> Option<TMag5273Error> {
        self.failed
    }

    /// The sequence before any write.
    pub fn new() -> (s: Self)
        ensures
            s.confirmed() == 0,
            s.failure() is None,
    {
        InitDefault { confirmed: 0, failed: None }
    }

    /// What to do now: the next register write, finished, or failed.
    pub fn action(&self) -> (a: InitAction)
        ensures
            a == init_action(self.confirmed(), self.failure()),
    {
        if let Some(e) = self.failed {
            InitAction::Failed(e)
        } else if self.confirmed == 0 {
            InitAction::WriteRegister { register: reg::SENSOR_CONFIG_1, value: 0x70 }
        } else if self.confirmed == 1 {
            InitAction::WriteRegister { register: reg::T_CONFIG, value: 0x01 }
        } else if self.confirmed == 2 {
            InitAction::WriteRegister { register: reg::DEVICE_CONFIG_2, value: 0x02 }
        } else {
            InitAction::Finished
        }
    }

    /// Takes the result of the write that [`InitDefault::action`] asked for:
    /// a success moves on to the next write, an error ends the sequence in
    /// the failed state, from which no write is asked for. Once finished or
    /// failed, results change nothing.
    pub fn on_write_result(&mut self, result: Result<(), TMag5273Error>) -> (r: Result<
        (),
        TMag5273Error,
    >)
        ensures
            r == result,
            old(self).failure() is None && old(self).confirmed() < 3 ==> match result {
                Ok(_) => final(self).confirmed() == old(self).confirmed() + 1
                    && final(self).failure() is None,
                Err(e) => final(self).confirmed() == old(self).confirmed()
                    && final(self).failure() == Some(e),
            },
            old(self).failure() is Some || old(self).confirmed() >= 3 ==> final(self).confirmed()
                == old(self).confirmed() && final(self).failure() == old(self).failure(),
    {
        if self.failed.is_none() && self.confirmed < 3 {
            match result {
                Ok(_) => {
                    self.confirmed = self.confirmed + 1;
                },
                Err(e) => {
                    self.failed = Some(e);
                },
            }
        }
        result
    }
}

/// The configuration writes come in the documented order, the operating
/// mode last, and the sequence finishes after the third success.
pub proof fn lemma_init_default_order()
    ensures
        init_action(0, None) == (InitAction::WriteRegister { register: 0x02, value: 0x70 }),
        init_action(1, None) == (InitAction::WriteRegister { register: 0x07, value: 0x01 }),
        init_action(2, None) == (InitAction::WriteRegister { register: 0x01, value: 0x02 }),
        init_action(3, None) == InitAction::Finished,
        forall|k: nat| k < 2 ==> (#[trigger] init_action(k, None) matches InitAction::WriteRegister {
            register,
            ..
        } && register != reg::DEVICE_CONFIG_2),
{
}

/// No write follows a failed one: once a write has failed, the action is
/// to fail with that error, never another write.
pub proof fn lemma_init_default_stops_after_failure(confirmed: nat, e: TMag5273Error)
    ensures
        init_action(confirmed, Some(e)) == InitAction::Failed(e),
        !(init_action(confirmed, Some(e)) is WriteRegister),
{
}

} // verus!
