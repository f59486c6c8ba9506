use helicopter_collective::tmag5273::reg;
use helicopter_collective::tmag5273::types::{DeviceVersion, TMag5273Error};
use helicopter_collective::tmag5273::{
    decode_all_data, decode_device_id, decode_manufacturer_id, map_bus_result, BusOp, InitAction,
    InitDefault, TMag5273, DEFAULT_ADDRESS,
};

const ADDR: u8 = 0x22;

// Register addresses mirrored here so a typo in the driver shows up as a test failure.
const REG_DEVICE_CONFIG_2: u8 = 0x01;
const REG_SENSOR_CONFIG_1: u8 = 0x02;
const REG_T_CONFIG: u8 = 0x07;
const REG_DEVICE_ID: u8 = 0x0D;
const REG_MANUFACTURER_ID_LSB: u8 = 0x0E;
const REG_T_MSB_RESULT: u8 = 0x10;

/// A stand-in bus that only records which device it belongs to.
#[derive(Debug, PartialEq)]
struct FakeBus(u32);

fn expect_write(op: BusOp) -> (u8, [u8; 2]) {
    match op {
        BusOp::Write { address, bytes } => (address, bytes),
        other => panic!("expected a write, got {:?}", other),
    }
}

fn expect_write_read(op: BusOp) -> (u8, u8, usize) {
    match op {
        BusOp::WriteRead { address, register, len } => (address, register, len),
        other => panic!("expected a write-read, got {:?}", other),
    }
}

/// Runs the configuration sequence against a bus that answers each write
/// with the next of `results`, and returns the writes made and the outcome.
fn run_init(
    sensor: &TMag5273<FakeBus>,
    results: &[Result<(), TMag5273Error>],
) -> (Vec<(u8, [u8; 2])>, Result<(), TMag5273Error>) {
    let mut seq = InitDefault::new();
    let mut writes = Vec::new();
    let mut answers = results.iter();
    loop {
        match seq.action() {
            InitAction::Finished => return (writes, Ok(())),
            InitAction::Failed(e) => return (writes, Err(e)),
            InitAction::WriteRegister { register, value } => {
                writes.push(expect_write(sensor.write_register_op(register, value)));
                let answer = *answers.next().expect("no more bus answers");
                let _ = seq.on_write_result(answer);
            }
        }
    }
}

/// init_default must write three registers in this exact order:
///   1. SENSOR_CONFIG_1 = 0x70 (enable X/Y/Z channels)
///   2. T_CONFIG        = 0x01 (enable temperature channel)
///   3. DEVICE_CONFIG_2 = 0x02 (continuous measurement mode — last, so config is locked in first)
#[test]
fn init_default_writes_registers_in_order() {
    let sensor = TMag5273::new(FakeBus(1), DeviceVersion::TMAG5273B1).unwrap();
    let (writes, outcome) = run_init(&sensor, &[Ok(()), Ok(()), Ok(())]);
    assert_eq!(
        writes,
        vec![
            (ADDR, [REG_SENSOR_CONFIG_1, 0x70]),
            (ADDR, [REG_T_CONFIG, 0x01]),
            (ADDR, [REG_DEVICE_CONFIG_2, 0x02]),
        ]
    );
    assert_eq!(outcome, Ok(()));
    assert_eq!(sensor.release(), FakeBus(1));
}

#[test]
fn init_default_stops_at_the_first_failed_write() {
    let sensor = TMag5273::new(FakeBus(1), DeviceVersion::TMAG5273B1).unwrap();
    let (writes, outcome) = run_init(&sensor, &[Ok(()), Err(TMag5273Error::I2c)]);
    assert_eq!(
        writes,
        vec![(ADDR, [REG_SENSOR_CONFIG_1, 0x70]), (ADDR, [REG_T_CONFIG, 0x01])]
    );
    assert_eq!(outcome, Err(TMag5273Error::I2c));
}

#[test]
fn init_sequence_stays_failed_after_an_error() {
    let mut seq = InitDefault::new();
    assert_eq!(seq.on_write_result(Ok(())), Ok(()));
    assert_eq!(seq.on_write_result(Err(TMag5273Error::I2c)), Err(TMag5273Error::I2c));
    assert_eq!(seq.action(), InitAction::Failed(TMag5273Error::I2c));
    assert_eq!(seq.on_write_result(Ok(())), Ok(()));
    assert_eq!(seq.action(), InitAction::Failed(TMag5273Error::I2c));
}

#[test]
fn init_sequence_ignores_results_after_finishing() {
    let mut seq = InitDefault::new();
    for _ in 0..3 {
        assert!(matches!(seq.action(), InitAction::WriteRegister { .. }));
        assert_eq!(seq.on_write_result(Ok(())), Ok(()));
    }
    assert_eq!(seq.action(), InitAction::Finished);
    assert_eq!(seq.on_write_result(Ok(())), Ok(()));
    assert_eq!(seq.action(), InitAction::Finished);
}

/// get_all_data must assemble the 8-byte burst (T/X/Y/Z, big-endian) into
/// the correct signed 16-bit fields.
#[test]
fn get_all_data_assembles_be_i16_fields() {
    let sensor = TMag5273::new(FakeBus(0), DeviceVersion::TMAG5273B1).unwrap();
    assert_eq!(expect_write_read(sensor.all_data_op()), (ADDR, REG_T_MSB_RESULT, 8));
    let raw = [
        0x01, 0x00, // temperature = 0x0100 =  256
        0xFF, 0xF0, // x          = 0xFFF0 = -16
        0x00, 0x10, // y          = 0x0010 =  16
        0x7F, 0xFF, // z          = 0x7FFF =  32767
    ];
    let data = decode_all_data(raw);
    assert_eq!(data.temperature, 256);
    assert_eq!(data.x, -16);
    assert_eq!(data.y, 16);
    assert_eq!(data.z, 32767);
}

#[test]
fn decode_all_data_reaches_i16_min() {
    let data = decode_all_data([0x80, 0x00, 0xFF, 0xFF, 0x80, 0x01, 0x00, 0x00]);
    assert_eq!(data.temperature, i16::MIN);
    assert_eq!(data.x, -1);
    assert_eq!(data.y, -32767);
    assert_eq!(data.z, 0);
}

/// get_device_id must target register 0x0D and return the byte verbatim.
#[test]
fn get_device_id_reads_register_0x0d() {
    let sensor = TMag5273::new(FakeBus(0), DeviceVersion::TMAG5273B1).unwrap();
    assert_eq!(expect_write_read(sensor.device_id_op()), (ADDR, REG_DEVICE_ID, 1));
    let id = decode_device_id([0x01]);
    assert_eq!(id.0, 0x01);
}

/// get_manufacturer_id must read two bytes from 0x0E and assemble them
/// little-endian. TI chips return 0x49 ('I') then 0x54 ('T') → 0x5449.
#[test]
fn get_manufacturer_id_assembles_le_u16() {
    let sensor = TMag5273::new(FakeBus(0), DeviceVersion::TMAG5273B1).unwrap();
    assert_eq!(
        expect_write_read(sensor.manufacturer_id_op()),
        (ADDR, REG_MANUFACTURER_ID_LSB, 2)
    );
    let id = decode_manufacturer_id([0x49, 0x54]);
    assert_eq!(id.0, 0x5449);
}

#[test]
fn driver_with_custom_address_uses_it() {
    let sensor = TMag5273::new_with_address(FakeBus(3), DeviceVersion::TMAG5273A1, 0x35).unwrap();
    assert_eq!(sensor.address(), 0x35);
    assert_eq!(expect_write(sensor.write_register_op(0x05, 0xAB)), (0x35, [0x05, 0xAB]));
    assert_eq!(expect_write_read(sensor.read_registers_op(0x12, 4)), (0x35, 0x12, 4));
    assert_eq!(sensor.release(), FakeBus(3));
}

#[test]
fn default_address_and_registers() {
    assert_eq!(DEFAULT_ADDRESS, 0x22);
    assert_eq!(reg::DEVICE_CONFIG_2, REG_DEVICE_CONFIG_2);
    assert_eq!(reg::SENSOR_CONFIG_1, REG_SENSOR_CONFIG_1);
    assert_eq!(reg::T_CONFIG, REG_T_CONFIG);
    assert_eq!(reg::DEVICE_ID, REG_DEVICE_ID);
    assert_eq!(reg::MANUFACTURER_ID_LSB, REG_MANUFACTURER_ID_LSB);
    assert_eq!(reg::T_MSB_RESULT, REG_T_MSB_RESULT);
}

#[test]
fn bus_mut_gives_the_bus() {
    let mut sensor = TMag5273::new(FakeBus(5), DeviceVersion::TMAG5273B1).unwrap();
    sensor.bus_mut().0 = 9;
    assert_eq!(sensor.release(), FakeBus(9));
}

#[test]
fn bus_errors_become_i2c_errors() {
    let failed: Result<u8, &str> = Err("nack");
    assert_eq!(map_bus_result(failed), Err(TMag5273Error::I2c));
    let ok: Result<u8, &str> = Ok(4);
    assert_eq!(map_bus_result(ok), Ok(4));
}
