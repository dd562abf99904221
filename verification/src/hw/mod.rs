//! Raspberry Pi 3 peripherals: values of the GPIO and mini UART registers.

pub mod gpio;
pub mod uart;
