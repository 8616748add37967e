use ds1302::bcd::{decode_bcd, encode_bcd};
use ds1302::bitorder::reverse_bits;
use ds1302::registers::{
    clock_running, command_byte, decode_date, decode_day, decode_hour, decode_minutes,
    decode_month, decode_seconds, decode_year, with_running, with_seconds, Register,
};
use ds1302::timing::{cycles_for_micros, cycles_for_millis, cycles_for_nanos};

const REGISTERS: [Register; 7] = [
    Register::Seconds,
    Register::Minutes,
    Register::Hour,
    Register::Date,
    Register::Month,
    Register::Day,
    Register::Year,
];

#[test]
fn encode_known_values() {
    assert_eq!(encode_bcd(0), 0x00);
    assert_eq!(encode_bcd(59), 0x59);
    assert_eq!(encode_bcd(99), 0x99);
    assert_eq!(encode_bcd(7), 0x07);
    assert_eq!(encode_bcd(10), 0x10);
    assert_eq!(encode_bcd(23), 0x23);
}

#[test]
fn decode_known_values() {
    assert_eq!(decode_bcd(0x23), 23);
    assert_eq!(decode_bcd(0x00), 0);
    assert_eq!(decode_bcd(0x59), 59);
    assert_eq!(decode_bcd(0x99), 99);
}

#[test]
fn decode_undoes_encode_for_two_digits() {
    for v in 0..=99u8 {
        assert_eq!(decode_bcd(encode_bcd(v)), v);
    }
}

#[test]
fn encode_puts_each_digit_in_its_nibble() {
    for v in 0..=99u8 {
        let raw = encode_bcd(v);
        assert_eq!(raw >> 4, v / 10);
        assert_eq!(raw & 0x0F, v % 10);
    }
}

#[test]
fn decode_masks_before_it_adds() {
    // 0x45: low nibble 5, high nibble 4. Adding before masking would give
    // 0x45 & (0x0F + 40) = 0x05.
    assert_eq!(decode_bcd(0x45), 45);
    assert_eq!(decode_bcd(0x10), 10);
    assert_eq!(decode_bcd(0x31), 31);
}

#[test]
fn decode_counts_a_nibble_above_nine_as_its_value() {
    assert_eq!(decode_bcd(0x0F), 15);
    assert_eq!(decode_bcd(0xF0), 150);
    assert_eq!(decode_bcd(0xFF), 165);
}

#[test]
fn encode_above_two_digits_wraps_the_tens() {
    assert_eq!(encode_bcd(100), 0xA0);
    assert_eq!(encode_bcd(159), 0xF9);
    assert_eq!(encode_bcd(160), 0x00);
    assert_eq!(encode_bcd(200), 0x40);
    assert_eq!(encode_bcd(255), 0x95);
}

#[test]
fn reverse_known_values() {
    assert_eq!(reverse_bits(0x80), 0x01);
    assert_eq!(reverse_bits(0x0F), 0xF0);
    assert_eq!(reverse_bits(0x00), 0x00);
    assert_eq!(reverse_bits(0xFF), 0xFF);
    assert_eq!(reverse_bits(0x81), 0x81);
    assert_eq!(reverse_bits(0b0000_0110), 0b0110_0000);
}

#[test]
fn reverse_twice_is_identity() {
    for x in 0..=255u8 {
        assert_eq!(reverse_bits(reverse_bits(x)), x);
    }
}

#[test]
fn reverse_agrees_with_the_standard_library() {
    for x in 0..=255u8 {
        assert_eq!(reverse_bits(x), x.reverse_bits());
    }
}

#[test]
fn command_bytes_are_the_fixed_pairs() {
    let pairs: [(u8, u8); 7] =
        [(0x80, 0x81), (0x82, 0x83), (0x84, 0x85), (0x86, 0x87), (0x88, 0x89), (0x8A, 0x8B), (0x8C, 0x8D)];
    for (register, (write, read)) in REGISTERS.iter().zip(pairs.iter()) {
        assert_eq!(register.write_address(), *write);
        assert_eq!(register.read_address(), *read);
        assert_eq!(command_byte(*register, false), *write);
        assert_eq!(command_byte(*register, true), *read);
    }
}

#[test]
fn read_address_is_write_address_with_bit_zero_set() {
    for register in REGISTERS.iter() {
        assert_eq!(register.read_address(), register.write_address() | 0x01);
        assert_eq!(register.read_address(), register.write_address() + 1);
        assert_eq!(register.write_address() & 0x01, 0);
    }
}

#[test]
fn hour_on_the_24_hour_clock() {
    assert_eq!(decode_hour(0b0_0_010011), 13);
    assert_eq!(decode_hour(0x00), 0);
    assert_eq!(decode_hour(0x23), 23);
    assert_eq!(decode_hour(0x09), 9);
}

#[test]
fn hour_on_the_12_hour_clock() {
    // 12-hour flag, afternoon flag, BCD 03.
    assert_eq!(decode_hour(0b1_0_1_00011), 15);
    // 12-hour flag, morning, BCD 03.
    assert_eq!(decode_hour(0b1_0_0_00011), 3);
    assert_eq!(decode_hour(0b1_0_0_10001), 11);
    assert_eq!(decode_hour(0b1_0_1_10001), 23);
    // Twelve is added in the afternoon, whatever the hour.
    assert_eq!(decode_hour(0b1_0_1_10010), 24);
    assert_eq!(decode_hour(0b1_0_0_10010), 12);
}

#[test]
fn hour_ignores_the_unused_bit() {
    assert_eq!(decode_hour(0b0_1_010011), 13);
    assert_eq!(decode_hour(0b1_1_1_00011), 15);
}

#[test]
fn seconds_leave_out_the_halt_flag() {
    assert_eq!(decode_seconds(0x59), 59);
    assert_eq!(decode_seconds(0x80 | 0x59), 59);
    assert_eq!(decode_seconds(0x80), 0);
    assert_eq!(decode_seconds(0x30), 30);
}

#[test]
fn running_is_the_halt_flag_clear() {
    assert!(clock_running(0x00));
    assert!(clock_running(0x59));
    assert!(clock_running(0x7F));
    assert!(!clock_running(0x80));
    assert!(!clock_running(0xD9));
}

#[test]
fn fields_are_masked_to_their_width() {
    assert_eq!(decode_minutes(0x59), 59);
    assert_eq!(decode_minutes(0x80 | 0x42), 42);
    assert_eq!(decode_date(0x31), 31);
    assert_eq!(decode_date(0xC0 | 0x15), 15);
    assert_eq!(decode_month(0x12), 12);
    assert_eq!(decode_month(0xE0 | 0x09), 9);
    assert_eq!(decode_day(0x07), 7);
    assert_eq!(decode_day(0xF8 | 0x03), 3);
    assert_eq!(decode_year(0x99), 99);
    assert_eq!(decode_year(0x24), 24);
}

#[test]
fn with_running_changes_only_the_halt_flag() {
    for raw in 0..=255u8 {
        let started = with_running(raw, true);
        let stopped = with_running(raw, false);
        assert!(clock_running(started));
        assert!(!clock_running(stopped));
        assert_eq!(started & 0x7F, raw & 0x7F);
        assert_eq!(stopped & 0x7F, raw & 0x7F);
    }
    assert_eq!(with_running(0xD9, true), 0x59);
    assert_eq!(with_running(0x59, false), 0xD9);
    assert_eq!(with_running(0x59, true), 0x59);
}

#[test]
fn with_seconds_keeps_the_halt_flag() {
    assert_eq!(with_seconds(0x00, 30), 0x30);
    assert_eq!(with_seconds(0x80, 30), 0xB0);
    assert_eq!(with_seconds(0x59, 0), 0x00);
    assert_eq!(with_seconds(0xD9, 0), 0x80);
    for current in [0x00u8, 0x12, 0x7F, 0x80, 0xFF] {
        for seconds in 0..=255u8 {
            let raw = with_seconds(current, seconds);
            assert_eq!(clock_running(raw), clock_running(current));
            assert_eq!(raw & 0x7F, encode_bcd(seconds) & 0x7F);
        }
        for seconds in 0..=59u8 {
            assert_eq!(decode_seconds(with_seconds(current, seconds)), seconds);
        }
    }
}

#[test]
fn cycles_exact_values() {
    assert_eq!(cycles_for_micros(48_000_000, 4), 192);
    assert_eq!(cycles_for_micros(8_000_000, 1), 8);
    assert_eq!(cycles_for_millis(48_000_000, 10), 480_000);
    assert_eq!(cycles_for_nanos(1_000_000_000, 300), 300);
    assert_eq!(cycles_for_nanos(48_000_000, 2000), 96);
}

#[test]
fn cycles_round_up() {
    // 48 MHz: 300 ns are 14.4 cycles.
    assert_eq!(cycles_for_nanos(48_000_000, 300), 15);
    // 350 ns are 16.8 cycles, 1700 ns are 81.6.
    assert_eq!(cycles_for_nanos(48_000_000, 350), 17);
    assert_eq!(cycles_for_nanos(48_000_000, 1700), 82);
    assert_eq!(cycles_for_nanos(1, 1), 1);
    assert_eq!(cycles_for_micros(1_500_000, 1), 2);
    assert_eq!(cycles_for_millis(1_001, 1), 2);
}

#[test]
fn cycles_of_nothing_are_none() {
    assert_eq!(cycles_for_nanos(48_000_000, 0), 0);
    assert_eq!(cycles_for_micros(0, 4), 0);
    assert_eq!(cycles_for_millis(0, 0), 0);
}

#[test]
fn cycles_stop_at_the_largest_count() {
    assert_eq!(cycles_for_millis(u32::MAX, u32::MAX), u32::MAX);
    assert_eq!(cycles_for_millis(48_000_000, 1_000_000), u32::MAX);
    assert_eq!(cycles_for_micros(u32::MAX, 1_000_000), u32::MAX);
    assert_eq!(cycles_for_nanos(u32::MAX, u32::MAX), u32::MAX);
}

#[test]
fn cycles_are_enough_and_no_more() {
    for (hz, n) in [(48_000_000u32, 300u32), (8_000_000, 280), (24_000_000, 1), (144_000_000, 1999)] {
        let cycles = cycles_for_nanos(hz, n) as u64;
        let asked = hz as u64 * n as u64;
        assert!(cycles * 1_000_000_000 >= asked);
        assert!((cycles - 1) * 1_000_000_000 < asked);
    }
}
