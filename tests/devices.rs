use xv6_memory::interrupts::{GateDescriptor, GateDescriptorOptions, Idt};
use xv6_memory::segmentation::{
    setup_segmentation, SEGMENT_KERNEL_CODE, SEGMENT_KERNEL_DATA, SEGMENT_USER_CODE,
    SEGMENT_USER_DATA,
};
use xv6_memory::uart::{UartWriter, BACKSPACE};

#[test]
fn gate_options() {
    let mut options = GateDescriptorOptions::new(0xE);
    assert_eq!(options.bits(), 0x8E);
    options.set_privilege_level(3);
    assert_eq!(options.bits(), 0xAE);
    options.set_present(false);
    assert_eq!(options.bits(), 0x2E);
    options.set_present(true).set_gate_type(0x5);
    assert_eq!(options.bits(), 0xA5);
}

#[test]
fn uart_characters() {
    let mut uart = UartWriter::new();
    uart.write_char(b'a' as i32);
    uart.write_char(BACKSPACE);
    uart.write_char(0x07);
    uart.write_char(0x141);
    assert_eq!(uart.take_output(), vec![b'a', b'?', b' ', b'?', b'?', b'A']);
    assert_eq!(uart.take_output(), Vec::<u8>::new());
}

#[test]
fn uart_strings() {
    let mut uart = UartWriter::new();
    uart.write_string("hi\n\u{1}é");
    assert_eq!(uart.take_output(), b"hi\n???".to_vec());
}

#[test]
fn uart_clear_screen() {
    let mut uart = UartWriter::new();
    uart.clear_screen();
    assert_eq!(uart.take_output(), b"\x1b[2J\x1b[H".to_vec());
}

#[test]
fn idt_starts_with_missing_gates() {
    let idt = Idt::new();
    let gate = idt.entry(0);
    assert_eq!(gate.pointer_low, 0);
    assert_eq!(gate.gdt_selector, 0);
    assert_eq!(gate.options.bits(), 0x8E);
    assert_eq!(idt.entry(255).options.bits(), 0x8E);
}

#[test]
fn idt_handler_splits_address() {
    let mut idt = Idt::new();
    idt.set_handler(14, 0x8, 0x8010_2345).set_privilege_level(3);
    let gate = idt.entry(14);
    assert_eq!(gate.pointer_low, 0x2345);
    assert_eq!(gate.pointer_high, 0x8010);
    assert_eq!(gate.gdt_selector, 0x8);
    assert_eq!(gate.options.bits(), 0xAE);
    assert_eq!(idt.entry(13).pointer_high, 0);
}

#[test]
fn missing_gate_has_no_handler() {
    let gate = GateDescriptor::missing(0xF);
    assert_eq!(gate.options.bits(), 0x8F);
    assert_eq!(gate.pointer_high, 0);
}

#[test]
fn flat_segments() {
    let mut gdt = vec![0u64, 0, 0, 0, 0, 7];
    setup_segmentation(&mut gdt);
    assert_eq!(gdt[0], 0);
    assert_eq!(gdt[SEGMENT_KERNEL_CODE], 0x00CF_9A00_0000_FFFF);
    assert_eq!(gdt[SEGMENT_KERNEL_DATA], 0x00CF_9200_0000_FFFF);
    assert_eq!(gdt[SEGMENT_USER_CODE], 0x00CF_FA00_0000_FFFF);
    assert_eq!(gdt[SEGMENT_USER_DATA], 0x00CF_F200_0000_FFFF);
    assert_eq!(gdt[5], 7);
}
