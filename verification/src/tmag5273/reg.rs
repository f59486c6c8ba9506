//! TMAG5273 register addresses (TI datasheet, Section 7.6).

use vstd::prelude::*;

verus! {

pub const DEVICE_CONFIG_2: u8 = 0x01;

pub const SENSOR_CONFIG_1: u8 = 0x02;

pub const T_CONFIG: u8 = 0x07;

pub const DEVICE_ID: u8 = 0x0D;

pub const MANUFACTURER_ID_LSB: u8 = 0x0E;

/// First result register — sequential read covers T/X/Y/Z (8 bytes).
pub const T_MSB_RESULT: u8 = 0x10;

} // verus!
