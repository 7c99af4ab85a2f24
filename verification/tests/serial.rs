use rhubarb::log::LogLevel;
use rhubarb::serial::{append_decimal, Device, SerialLogger, COM1_PORT};
use rhubarb::shell;

#[test]
fn uart_setup_writes() {
    assert_eq!(
        Device::com1().init_writes(),
        vec![
            (0x3F9, 0),
            (0x3FB, 0x80),
            (0x3F8, 3),
            (0x3F9, 0),
            (0x3FB, 0x03),
            (0x3FA, 0xC7),
            (0x3FC, 0x0B),
            (0x3F9, 1)
        ]
    );
    assert_eq!(Device::new(COM1_PORT), Device::com1());
    assert_eq!(Device::com2().line_status_port(), 0x2FD);
}

#[test]
fn uart_bytes_on_the_wire() {
    assert_eq!(Device::write(0x7F), vec![0x08, b' ', 0x08]);
    assert_eq!(Device::write(0x08), vec![0x08, b' ', 0x08]);
    assert_eq!(Device::write(b'\n'), vec![b'\r', b'\n']);
    assert_eq!(Device::write(b'x'), vec![b'x']);
    assert_eq!(Device::write_str("a\nb"), vec![b'a', b'\r', b'\n', b'b']);
    assert!(Device::line_output_empty(0x60));
    assert!(!Device::line_output_empty(0x40));
}

#[test]
fn decimal_digits() {
    let mut s = String::new();
    append_decimal(&mut s, 0);
    append_decimal(&mut s, 7);
    append_decimal(&mut s, 31);
    append_decimal(&mut s, 255);
    assert_eq!(s, "0731255");
}

#[test]
fn kernel_log_lines() {
    let logger = SerialLogger;
    assert_eq!(
        logger.line(LogLevel::Error, "kernel", "boom"),
        "\x1b[31mERROR \x1b[0m\x1b[2m[kernel]\x1b[0m \x1b[0mboom\x1b[0m\n"
    );
    assert_eq!(
        logger.line(LogLevel::Warn, "mm", "low"),
        "\x1b[33mWARN  \x1b[0m\x1b[2m[mm]\x1b[0m \x1b[0mlow\x1b[0m\n"
    );
    assert_eq!(
        logger.line(LogLevel::Trace, "t", ""),
        "\x1b[2mTRACE \x1b[0m\x1b[2m[t]\x1b[0m \x1b[0m\x1b[0m\n"
    );
}

#[test]
fn shell_log_lines() {
    let logger = shell::SerialLogger;
    assert_eq!(logger.line(LogLevel::Info, "shell", "hi"), "\x1b[2m[shell] \x1b[32mhi\x1b[0m\n");
    assert_eq!(logger.line(LogLevel::Debug, "s", "x"), "\x1b[2m[s] \x1b[34mx\x1b[0m\n");
}

#[test]
fn the_logger_is_set_once() {
    let mut slot = rhubarb::log::LoggerSlot::new();
    assert!(slot.get_logger().is_none());
    assert_eq!(slot.set_logger(SerialLogger), Ok(()));
    assert!(slot.get_logger().is_some());
    assert_eq!(slot.set_logger(SerialLogger), Err(()));
}
