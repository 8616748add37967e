use std::cell::RefCell;
use std::rc::Rc;

use ds1302::{DataLine, Delay, Ds1302, LineFault, OutputLine, ReadWriteError};

/// What the driver asked of the bench, in the driver's own terms.
#[derive(Debug, Clone, Copy, PartialEq, Eq)]
enum Op {
    Clock(bool),
    ChipSelect(bool),
    DataOut(bool),
    DataIn,
    Release,
    Reclaim,
    WaitMicros(u32),
    WaitNanos(u32),
}

#[derive(Debug, Clone, Copy, PartialEq, Eq)]
enum Wire {
    Clock,
    ChipSelect,
    DataOut,
    DataIn,
}

/// The three wires with a chip at their far end, a record of everything the
/// driver did, and a switch to make one wire refuse.
struct Bench {
    trace: Vec<(Op, bool)>,
    registers: [u8; 32],
    clock: bool,
    select: bool,
    host_level: bool,
    host_drives: bool,
    chip_level: bool,
    edges: u8,
    command: u8,
    incoming: u8,
    /// The wire that refuses, and how many calls it serves before it does.
    refuses: Option<(Wire, usize)>,
    /// How many more calls it refuses; `None` for ever.
    refusals_left: Option<usize>,
    calls: [usize; 4],
}

impl Bench {
    fn new() -> Self {
        Bench {
            trace: Vec::new(),
            registers: [0; 32],
            clock: false,
            select: false,
            host_level: false,
            host_drives: true,
            chip_level: false,
            edges: 0,
            command: 0,
            incoming: 0,
            refuses: None,
            refusals_left: None,
            calls: [0; 4],
        }
    }

    fn serves(&mut self, wire: Wire) -> bool {
        let slot = match wire {
            Wire::Clock => 0,
            Wire::ChipSelect => 1,
            Wire::DataOut => 2,
            Wire::DataIn => 3,
        };
        let call = self.calls[slot];
        self.calls[slot] += 1;
        match self.refuses {
            Some((refusing, served)) if refusing == wire && call >= served => match self.refusals_left {
                None => false,
                Some(0) => true,
                Some(n) => {
                    self.refusals_left = Some(n - 1);
                    false
                }
            },
            _ => true,
        }
    }

    fn register(&self) -> usize {
        ((self.command >> 1) & 0x1F) as usize
    }

    fn set_select(&mut self, high: bool) {
        if high && !self.select {
            self.edges = 0;
            self.command = 0;
            self.incoming = 0;
        }
        self.select = high;
    }

    fn set_clock(&mut self, high: bool) {
        let rising = high && !self.clock;
        let falling = !high && self.clock;
        self.clock = high;
        if !self.select {
            return;
        }
        if rising {
            if self.edges < 8 {
                if self.host_level {
                    self.command |= 1 << self.edges;
                }
            } else if self.edges < 16 && self.command & 1 == 0 {
                if self.host_level {
                    self.incoming |= 1 << (self.edges - 8);
                }
                if self.edges == 15 {
                    self.registers[self.register()] = self.incoming;
                }
            }
            if self.edges < 255 {
                self.edges += 1;
            }
        }
        if falling && self.command & 1 == 1 && self.edges >= 8 && self.edges < 16 {
            self.chip_level = (self.registers[self.register()] >> (self.edges - 8)) & 1 == 1;
        }
    }

    fn sample(&self) -> bool {
        if self.host_drives {
            self.host_level
        } else {
            self.chip_level
        }
    }

    fn ops(&self) -> Vec<Op> {
        self.trace.iter().map(|(op, _)| *op).collect()
    }

    /// Low-to-high transitions of the clock among the operations that were
    /// served, from a low clock.
    fn pulses(events: &[(Op, bool)]) -> usize {
        let mut level = false;
        let mut count = 0;
        for (op, served) in events {
            if let (Op::Clock(high), true) = (op, served) {
                if *high && !level {
                    count += 1;
                }
                level = *high;
            }
        }
        count
    }

    fn position(&self, op: Op) -> Option<usize> {
        self.trace.iter().position(|(o, _)| *o == op)
    }
}

struct ClockLine(Rc<RefCell<Bench>>);

struct SelectLine(Rc<RefCell<Bench>>);

struct IoLine(Rc<RefCell<Bench>>);

struct Waits(Rc<RefCell<Bench>>);

impl OutputLine for ClockLine {
    fn set_high(&mut self) -> Result<(), LineFault> {
        let mut bench = self.0.borrow_mut();
        let served = bench.serves(Wire::Clock);
        bench.trace.push((Op::Clock(true), served));
        if served {
            bench.set_clock(true);
            Ok(())
        } else {
            Err(LineFault)
        }
    }

    fn set_low(&mut self) -> Result<(), LineFault> {
        let mut bench = self.0.borrow_mut();
        let served = bench.serves(Wire::Clock);
        bench.trace.push((Op::Clock(false), served));
        if served {
            bench.set_clock(false);
            Ok(())
        } else {
            Err(LineFault)
        }
    }
}

impl OutputLine for SelectLine {
    fn set_high(&mut self) -> Result<(), LineFault> {
        let mut bench = self.0.borrow_mut();
        let served = bench.serves(Wire::ChipSelect);
        bench.trace.push((Op::ChipSelect(true), served));
        if served {
            bench.set_select(true);
            Ok(())
        } else {
            Err(LineFault)
        }
    }

    fn set_low(&mut self) -> Result<(), LineFault> {
        let mut bench = self.0.borrow_mut();
        let served = bench.serves(Wire::ChipSelect);
        bench.trace.push((Op::ChipSelect(false), served));
        if served {
            bench.set_select(false);
            Ok(())
        } else {
            Err(LineFault)
        }
    }
}

impl DataLine for IoLine {
    fn set_state(&mut self, high: bool) -> Result<(), LineFault> {
        let mut bench = self.0.borrow_mut();
        assert!(bench.host_drives, "the driver drove a line it had released");
        let served = bench.serves(Wire::DataOut);
        bench.trace.push((Op::DataOut(high), served));
        if served {
            bench.host_level = high;
            Ok(())
        } else {
            Err(LineFault)
        }
    }

    fn is_high(&self) -> Result<bool, LineFault> {
        let mut bench = self.0.borrow_mut();
        assert!(!bench.host_drives, "the driver sampled a line it was driving");
        let served = bench.serves(Wire::DataIn);
        bench.trace.push((Op::DataIn, served));
        if served {
            Ok(bench.sample())
        } else {
            Err(LineFault)
        }
    }

    fn release(&mut self) {
        let mut bench = self.0.borrow_mut();
        assert!(bench.host_drives, "the driver released a line twice");
        bench.trace.push((Op::Release, true));
        bench.host_drives = false;
    }

    fn reclaim(&mut self) {
        let mut bench = self.0.borrow_mut();
        assert!(!bench.host_drives, "the driver reclaimed a line it held");
        bench.trace.push((Op::Reclaim, true));
        bench.host_drives = true;
    }
}

impl Delay for Waits {
    fn delay_micro(&self, micros: u32) {
        self.0.borrow_mut().trace.push((Op::WaitMicros(micros), true));
    }

    fn delay_nano(&self, nanos: u32) {
        self.0.borrow_mut().trace.push((Op::WaitNanos(nanos), true));
    }
}

type Device = Ds1302<ClockLine, IoLine, SelectLine>;

fn setup() -> (Rc<RefCell<Bench>>, Device, Waits) {
    let bench = Rc::new(RefCell::new(Bench::new()));
    let device = Ds1302::new(ClockLine(bench.clone()), IoLine(bench.clone()), SelectLine(bench.clone()));
    let waits = Waits(bench.clone());
    (bench, device, waits)
}

fn setup_refusing(wire: Wire, served: usize) -> (Rc<RefCell<Bench>>, Device, Waits) {
    let (bench, device, waits) = setup();
    bench.borrow_mut().refuses = Some((wire, served));
    (bench, device, waits)
}

fn opening() -> Vec<Op> {
    vec![Op::Clock(false), Op::ChipSelect(true), Op::WaitMicros(4)]
}

fn closing() -> Vec<Op> {
    vec![Op::WaitNanos(300), Op::ChipSelect(false), Op::WaitMicros(4)]
}

fn byte_out(byte: u8) -> Vec<Op> {
    let mut ops = vec![Op::Clock(false)];
    for i in 0..8 {
        ops.push(Op::DataOut((byte >> i) & 1 == 1));
        ops.push(Op::WaitNanos(350));
        ops.push(Op::Clock(true));
        ops.push(Op::WaitNanos(2000));
        ops.push(Op::Clock(false));
        ops.push(Op::WaitNanos(1700));
    }
    ops
}

fn byte_in() -> Vec<Op> {
    let mut ops = vec![Op::Clock(false), Op::Release];
    for _ in 0..8 {
        ops.push(Op::WaitNanos(300));
        ops.push(Op::Clock(true));
        ops.push(Op::WaitNanos(2000));
        ops.push(Op::DataIn);
        ops.push(Op::Clock(false));
        ops.push(Op::WaitNanos(1700));
    }
    ops.push(Op::Reclaim);
    ops
}

fn write_frame(addr: u8, data: u8) -> Vec<Op> {
    let mut ops = opening();
    ops.extend(byte_out(addr));
    ops.extend(byte_out(data));
    ops.extend(closing());
    ops
}

fn read_frame(addr: u8) -> Vec<Op> {
    let mut ops = opening();
    ops.extend(byte_out(addr));
    ops.extend(byte_in());
    ops.extend(closing());
    ops
}

/// Checks the shape of one transaction: chip-select rises before any pulse,
/// eight pulses, eight more, chip-select falls, no pulse after.
fn assert_one_frame(events: &[(Op, bool)]) {
    let rise = events.iter().position(|(op, _)| *op == Op::ChipSelect(true)).unwrap();
    let fall = events.iter().position(|(op, _)| *op == Op::ChipSelect(false)).unwrap();
    assert!(rise < fall);
    let selects = events.iter().filter(|(op, _)| matches!(op, Op::ChipSelect(_))).count();
    assert_eq!(selects, 2);
    assert_eq!(Bench::pulses(&events[..rise]), 0);
    assert_eq!(Bench::pulses(&events[rise..fall]), 16);
    assert_eq!(Bench::pulses(&events[fall..]), 0);
    assert!(events[fall + 1..].iter().all(|(op, _)| matches!(op, Op::WaitMicros(_))));
    // Each byte starts where the driver takes a low clock low again.
    let lows: Vec<usize> = (rise..fall)
        .filter(|i| events[*i].0 == Op::Clock(false) && Bench::pulses(&events[..*i]) % 8 == 0)
        .filter(|i| !matches!(events[*i - 1].0, Op::WaitNanos(2000) | Op::DataIn))
        .collect();
    assert_eq!(lows.len(), 2);
    assert_eq!(Bench::pulses(&events[lows[0]..lows[1]]), 8);
    assert_eq!(Bench::pulses(&events[lows[1]..fall]), 8);
}

#[test]
fn get_seconds_reads_the_seconds_register() {
    let (bench, mut device, waits) = setup();
    bench.borrow_mut().registers[0] = 0x59;
    assert_eq!(device.get_seconds(&waits), Ok(59));
}

#[test]
fn get_seconds_leaves_out_the_halt_flag() {
    let (bench, mut device, waits) = setup();
    bench.borrow_mut().registers[0] = 0x80 | 0x23;
    assert_eq!(device.get_seconds(&waits), Ok(23));
}

#[test]
fn each_getter_reads_its_own_register() {
    let (bench, mut device, waits) = setup();
    bench.borrow_mut().registers[..7].copy_from_slice(&[0x45, 0x59, 0x23, 0x31, 0x12, 0x07, 0x99]);
    assert_eq!(device.get_seconds(&waits), Ok(45));
    assert_eq!(device.get_minutes(&waits), Ok(59));
    assert_eq!(device.get_hour(&waits), Ok(23));
    assert_eq!(device.get_date(&waits), Ok(31));
    assert_eq!(device.get_month(&waits), Ok(12));
    assert_eq!(device.get_day(&waits), Ok(7));
    assert_eq!(device.get_year(&waits), Ok(99));
    assert_eq!(device.is_running(&waits), Ok(true));
}

#[test]
fn getters_mask_the_bits_that_are_not_theirs() {
    let (bench, mut device, waits) = setup();
    bench.borrow_mut().registers[..7].copy_from_slice(&[0xC5, 0xD9, 0x53, 0xF1, 0xF2, 0xFF, 0x24]);
    assert_eq!(device.get_seconds(&waits), Ok(45));
    assert_eq!(device.get_minutes(&waits), Ok(59));
    assert_eq!(device.get_hour(&waits), Ok(13));
    assert_eq!(device.get_date(&waits), Ok(31));
    assert_eq!(device.get_month(&waits), Ok(12));
    assert_eq!(device.get_day(&waits), Ok(7));
    assert_eq!(device.get_year(&waits), Ok(24));
    assert_eq!(device.is_running(&waits), Ok(false));
}

#[test]
fn get_hour_on_the_24_hour_clock() {
    let (bench, mut device, waits) = setup();
    bench.borrow_mut().registers[2] = 0b0_0_010011;
    assert_eq!(device.get_hour(&waits), Ok(13));
}

#[test]
fn get_hour_on_the_12_hour_clock_in_the_afternoon() {
    let (bench, mut device, waits) = setup();
    bench.borrow_mut().registers[2] = 0b1_0_1_00011;
    assert_eq!(device.get_hour(&waits), Ok(15));
}

#[test]
fn get_hour_on_the_12_hour_clock_in_the_morning() {
    let (bench, mut device, waits) = setup();
    bench.borrow_mut().registers[2] = 0b1_0_0_01001;
    assert_eq!(device.get_hour(&waits), Ok(9));
}

#[test]
fn setters_write_bcd_to_their_own_register() {
    let (bench, mut device, waits) = setup();
    assert_eq!(device.set_minutes(59, &waits), Ok(()));
    assert_eq!(device.set_hour(23, &waits), Ok(()));
    assert_eq!(device.set_date(31, &waits), Ok(()));
    assert_eq!(device.set_month(12, &waits), Ok(()));
    assert_eq!(device.set_day(7, &waits), Ok(()));
    assert_eq!(device.set_year(99, &waits), Ok(()));
    assert_eq!(device.set_seconds(30, &waits), Ok(()));
    assert_eq!(bench.borrow().registers[..7], [0x30, 0x59, 0x23, 0x31, 0x12, 0x07, 0x99]);
}

#[test]
fn what_is_set_is_what_is_got() {
    let (_bench, mut device, waits) = setup();
    device.set_hour(23, &waits).unwrap();
    device.set_minutes(59, &waits).unwrap();
    device.set_seconds(30, &waits).unwrap();
    device.set_running(true, &waits).unwrap();
    assert_eq!(device.get_hour(&waits), Ok(23));
    assert_eq!(device.get_minutes(&waits), Ok(59));
    assert_eq!(device.get_seconds(&waits), Ok(30));
    assert_eq!(device.is_running(&waits), Ok(true));
}

#[test]
fn set_running_starts_the_clock_and_keeps_the_seconds() {
    let (bench, mut device, waits) = setup();
    bench.borrow_mut().registers[0] = 0x80 | 0x47;
    assert_eq!(device.is_running(&waits), Ok(false));
    assert_eq!(device.set_running(true, &waits), Ok(()));
    assert_eq!(device.is_running(&waits), Ok(true));
    assert_eq!(bench.borrow().registers[0], 0x47);
    assert_eq!(device.get_seconds(&waits), Ok(47));
}

#[test]
fn set_running_stops_the_clock_and_keeps_the_seconds() {
    let (bench, mut device, waits) = setup();
    bench.borrow_mut().registers[0] = 0x47;
    assert_eq!(device.set_running(false, &waits), Ok(()));
    assert_eq!(device.is_running(&waits), Ok(false));
    assert_eq!(bench.borrow().registers[0], 0x80 | 0x47);
    assert_eq!(device.get_seconds(&waits), Ok(47));
}

#[test]
fn set_running_to_what_it_is_changes_nothing() {
    let (bench, mut device, waits) = setup();
    bench.borrow_mut().registers[0] = 0x12;
    assert_eq!(device.set_running(true, &waits), Ok(()));
    assert_eq!(bench.borrow().registers[0], 0x12);
    bench.borrow_mut().registers[0] = 0x92;
    assert_eq!(device.set_running(false, &waits), Ok(()));
    assert_eq!(bench.borrow().registers[0], 0x92);
}

#[test]
fn set_seconds_keeps_a_running_clock_running() {
    let (bench, mut device, waits) = setup();
    bench.borrow_mut().registers[0] = 0x15;
    assert_eq!(device.set_seconds(42, &waits), Ok(()));
    assert_eq!(bench.borrow().registers[0], 0x42);
    assert_eq!(device.is_running(&waits), Ok(true));
}

#[test]
fn set_seconds_keeps_a_halted_clock_halted() {
    let (bench, mut device, waits) = setup();
    bench.borrow_mut().registers[0] = 0x80 | 0x15;
    assert_eq!(device.set_seconds(42, &waits), Ok(()));
    assert_eq!(bench.borrow().registers[0], 0x80 | 0x42);
    assert_eq!(device.is_running(&waits), Ok(false));
    assert_eq!(device.get_seconds(&waits), Ok(42));
}

#[test]
fn set_seconds_never_touches_the_halt_flag() {
    for halted in [false, true] {
        for seconds in [0u8, 59, 79, 80, 99, 200, 255] {
            let (bench, mut device, waits) = setup();
            bench.borrow_mut().registers[0] = if halted { 0x80 } else { 0x00 };
            assert_eq!(device.set_seconds(seconds, &waits), Ok(()));
            assert_eq!(bench.borrow().registers[0] & 0x80 != 0, halted);
        }
    }
}

#[test]
fn a_write_is_this_sequence_and_no_other() {
    let (bench, mut device, waits) = setup();
    assert_eq!(device.set_hour(23, &waits), Ok(()));
    assert_eq!(bench.borrow().ops(), write_frame(0x84, 0x23));
    assert_eq!(bench.borrow().ops().len(), 104);
    assert!(bench.borrow().trace.iter().all(|(_, served)| *served));
}

#[test]
fn a_read_is_this_sequence_and_no_other() {
    let (bench, mut device, waits) = setup();
    assert_eq!(device.get_minutes(&waits), Ok(0));
    assert_eq!(bench.borrow().ops(), read_frame(0x83));
    assert_eq!(bench.borrow().ops().len(), 106);
}

#[test]
fn a_read_modify_write_is_a_read_and_then_a_write() {
    let (bench, mut device, waits) = setup();
    bench.borrow_mut().registers[0] = 0x80 | 0x21;
    assert_eq!(device.set_running(true, &waits), Ok(()));
    let mut expected = read_frame(0x81);
    expected.extend(write_frame(0x80, 0x21));
    assert_eq!(bench.borrow().ops(), expected);

    let (bench, mut device, waits) = setup();
    bench.borrow_mut().registers[0] = 0x80 | 0x21;
    assert_eq!(device.set_seconds(5, &waits), Ok(()));
    let mut expected = read_frame(0x81);
    expected.extend(write_frame(0x80, 0x85));
    assert_eq!(bench.borrow().ops(), expected);
}

#[test]
fn a_bit_is_sampled_after_the_clock_has_been_high_for_its_time() {
    let (bench, mut device, waits) = setup();
    device.get_year(&waits).unwrap();
    let ops = bench.borrow().ops();
    let release = ops.iter().position(|op| *op == Op::Release).unwrap();
    let first_bit = [
        Op::WaitNanos(300),
        Op::Clock(true),
        Op::WaitNanos(2000),
        Op::DataIn,
        Op::Clock(false),
        Op::WaitNanos(1700),
    ];
    assert_eq!(ops[release + 1..release + 7], first_bit);
    assert_eq!(ops.iter().filter(|op| **op == Op::DataIn).count(), 8);
}

#[test]
fn a_write_drives_the_data_line_sixteen_times_and_never_samples_it() {
    let (bench, mut device, waits) = setup();
    device.set_month(12, &waits).unwrap();
    let ops = bench.borrow().ops();
    assert_eq!(ops.iter().filter(|op| matches!(op, Op::DataOut(_))).count(), 16);
    assert_eq!(ops.iter().filter(|op| **op == Op::DataIn).count(), 0);
    assert!(!ops.iter().any(|op| matches!(op, Op::Release | Op::Reclaim)));
}

#[test]
fn a_read_drives_the_command_and_samples_the_data() {
    let (bench, mut device, waits) = setup();
    device.get_month(&waits).unwrap();
    let ops = bench.borrow().ops();
    assert_eq!(ops.iter().filter(|op| matches!(op, Op::DataOut(_))).count(), 8);
    assert_eq!(ops.iter().filter(|op| **op == Op::DataIn).count(), 8);
    let release = ops.iter().position(|op| *op == Op::Release).unwrap();
    let reclaim = ops.iter().position(|op| *op == Op::Reclaim).unwrap();
    let first_sample = ops.iter().position(|op| *op == Op::DataIn).unwrap();
    let last_drive = ops.iter().rposition(|op| matches!(op, Op::DataOut(_))).unwrap();
    let last_sample = ops.iter().rposition(|op| *op == Op::DataIn).unwrap();
    assert!(last_drive < release && release < first_sample && last_sample < reclaim);
}

#[test]
fn bits_cross_the_wire_least_significant_first() {
    let (bench, mut device, waits) = setup();
    // Sixteen is 0x16 in BCD: 0001 0110.
    device.set_date(16, &waits).unwrap();
    let levels: Vec<bool> = bench
        .borrow()
        .ops()
        .iter()
        .filter_map(|op| if let Op::DataOut(level) = op { Some(*level) } else { None })
        .collect();
    let address = [false, true, true, false, false, false, false, true];
    let data = [false, true, true, false, true, false, false, false];
    assert_eq!(levels[..8], address);
    assert_eq!(levels[8..], data);
}

#[test]
fn bits_come_off_the_wire_least_significant_first() {
    for raw in [0x01u8, 0x80, 0x55, 0xAA, 0x99, 0x0F] {
        let (bench, mut device, waits) = setup();
        bench.borrow_mut().registers[6] = raw;
        assert_eq!(device.get_year(&waits), Ok((raw >> 4) * 10 + (raw & 0x0F)));
    }
}

#[test]
fn every_single_transaction_has_the_same_shape() {
    let (bench, mut device, waits) = setup();
    device.get_seconds(&waits).unwrap();
    assert_one_frame(&bench.borrow().trace);
    let calls: Vec<Box<dyn Fn(&mut Device, &Waits)>> = vec![
        Box::new(|d, w| { d.is_running(w).unwrap(); }),
        Box::new(|d, w| { d.get_minutes(w).unwrap(); }),
        Box::new(|d, w| { d.get_hour(w).unwrap(); }),
        Box::new(|d, w| { d.get_date(w).unwrap(); }),
        Box::new(|d, w| { d.get_month(w).unwrap(); }),
        Box::new(|d, w| { d.get_day(w).unwrap(); }),
        Box::new(|d, w| { d.get_year(w).unwrap(); }),
        Box::new(|d, w| { d.set_minutes(1, w).unwrap(); }),
        Box::new(|d, w| { d.set_hour(2, w).unwrap(); }),
        Box::new(|d, w| { d.set_date(3, w).unwrap(); }),
        Box::new(|d, w| { d.set_month(4, w).unwrap(); }),
        Box::new(|d, w| { d.set_day(5, w).unwrap(); }),
        Box::new(|d, w| { d.set_year(6, w).unwrap(); }),
    ];
    for call in calls {
        let (bench, mut device, waits) = setup();
        call(&mut device, &waits);
        assert_one_frame(&bench.borrow().trace);
    }
}

#[test]
fn a_read_modify_write_is_two_transactions() {
    let (bench, mut device, waits) = setup();
    device.set_seconds(10, &waits).unwrap();
    let trace = bench.borrow().trace.clone();
    assert_eq!(trace.len(), 106 + 104);
    assert_one_frame(&trace[..106]);
    assert_one_frame(&trace[106..]);

    let (bench, mut device, waits) = setup();
    device.set_running(false, &waits).unwrap();
    let trace = bench.borrow().trace.clone();
    assert_eq!(trace.len(), 106 + 104);
    assert_one_frame(&trace[..106]);
    assert_one_frame(&trace[106..]);
}

#[test]
fn waits_are_at_least_what_the_chip_asks_for() {
    let (bench, mut device, waits) = setup();
    device.get_seconds(&waits).unwrap();
    device.set_minutes(1, &waits).unwrap();
    let ops = bench.borrow().ops();
    for i in 0..ops.len() {
        match ops[i] {
            // Chip-select to clock, and chip-select inactive: 4 us.
            Op::ChipSelect(_) => assert!(matches!(ops[i + 1], Op::WaitMicros(n) if n >= 4)),
            // Data to clock: 200 ns.
            Op::DataOut(_) => assert!(matches!(ops[i + 1], Op::WaitNanos(n) if n >= 200)),
            // Clock high: 1000 ns.
            Op::Clock(true) => assert!(matches!(ops[i + 1], Op::WaitNanos(n) if n >= 1000)),
            // The sample comes at the end of the high time, before the clock falls.
            Op::DataIn => {
                assert!(matches!(ops[i - 1], Op::WaitNanos(n) if n >= 1000));
                assert_eq!(ops[i - 2], Op::Clock(true));
                assert_eq!(ops[i + 1], Op::Clock(false));
            }
            // Clock low: 1000 ns after every pulse.
            Op::Clock(false) if i > 0 && matches!(ops[i - 1], Op::WaitNanos(2000) | Op::DataIn) => {
                assert!(matches!(ops[i + 1], Op::WaitNanos(n) if n >= 1000));
            }
            // Line handed over: 280 ns before the first edge.
            Op::Release => assert!(matches!(ops[i + 1], Op::WaitNanos(n) if n >= 280)),
            _ => {}
        }
        // Clock to chip-select release: 300 ns.
        if ops[i] == Op::ChipSelect(false) {
            assert!(matches!(ops[i - 1], Op::WaitNanos(n) if n >= 300));
        }
    }
}

#[test]
fn chip_select_refusing_gives_its_error_before_any_pulse() {
    let (bench, mut device, waits) = setup_refusing(Wire::ChipSelect, 0);
    assert_eq!(device.get_seconds(&waits), Err(ReadWriteError::ChipSelectError));
    let trace = bench.borrow().trace.clone();
    assert_eq!(Bench::pulses(&trace), 0);
    assert!(!trace.iter().any(|(op, _)| *op == Op::Clock(true)));
    assert_eq!(trace, vec![(Op::Clock(false), true), (Op::ChipSelect(true), false)]);
    assert!(!trace.iter().any(|(op, _)| matches!(op, Op::DataOut(_) | Op::DataIn)));
}

#[test]
fn chip_select_refusing_stops_every_operation() {
    let (_bench, mut device, waits) = setup_refusing(Wire::ChipSelect, 0);
    assert_eq!(device.is_running(&waits), Err(ReadWriteError::ChipSelectError));
    assert_eq!(device.get_hour(&waits), Err(ReadWriteError::ChipSelectError));
    assert_eq!(device.set_minutes(1, &waits), Err(ReadWriteError::ChipSelectError));
    assert_eq!(device.set_seconds(1, &waits), Err(ReadWriteError::ChipSelectError));
    assert_eq!(device.set_running(true, &waits), Err(ReadWriteError::ChipSelectError));
}

#[test]
fn chip_select_refusing_to_fall_gives_its_error_after_the_transfer() {
    let (bench, mut device, waits) = setup_refusing(Wire::ChipSelect, 1);
    assert_eq!(device.set_year(24, &waits), Err(ReadWriteError::ChipSelectError));
    let trace = bench.borrow().trace.clone();
    assert_eq!(Bench::pulses(&trace), 16);
    assert_eq!(trace.last(), Some(&(Op::ChipSelect(false), false)));
    assert_eq!(trace.len(), 103);
    assert_eq!(bench.borrow().registers[6], 0x24);
}

#[test]
fn clock_refusing_gives_its_error_at_once() {
    let (bench, mut device, waits) = setup_refusing(Wire::Clock, 0);
    assert_eq!(device.get_seconds(&waits), Err(ReadWriteError::ClockError));
    assert_eq!(bench.borrow().trace, vec![(Op::Clock(false), false)]);
    assert_eq!(device.set_hour(1, &waits), Err(ReadWriteError::ClockError));
}

#[test]
fn clock_refusing_mid_byte_stops_the_transfer_there() {
    // Calls served: low, low, then high and low for each of three bits.
    let (bench, mut device, waits) = setup_refusing(Wire::Clock, 8);
    assert_eq!(device.set_minutes(0x15, &waits), Err(ReadWriteError::ClockError));
    let trace = bench.borrow().trace.clone();
    assert_eq!(Bench::pulses(&trace), 3);
    assert_eq!(trace.last(), Some(&(Op::Clock(true), false)));
    assert!(trace[..trace.len() - 1].iter().all(|(_, served)| *served));
    let expected = write_frame(0x82, 0x15);
    assert_eq!(bench.borrow().ops(), expected[..trace.len()]);
    assert!(!trace.iter().any(|(op, _)| *op == Op::ChipSelect(false)));
}

#[test]
fn data_line_refusing_to_be_driven_gives_write_error() {
    let (bench, mut device, waits) = setup_refusing(Wire::DataOut, 0);
    assert_eq!(device.set_minutes(1, &waits), Err(ReadWriteError::WriteError));
    let trace = bench.borrow().trace.clone();
    assert_eq!(Bench::pulses(&trace), 0);
    assert_eq!(trace.last(), Some(&(Op::DataOut(false), false)));
    assert_eq!(trace.len(), 5);
    assert_eq!(device.get_minutes(&waits), Err(ReadWriteError::WriteError));
}

#[test]
fn data_line_refusing_in_the_data_byte_gives_write_error() {
    let (bench, mut device, waits) = setup_refusing(Wire::DataOut, 10);
    assert_eq!(device.set_minutes(1, &waits), Err(ReadWriteError::WriteError));
    assert_eq!(Bench::pulses(&bench.borrow().trace), 10);
    assert_eq!(bench.borrow().registers[1], 0);
}

#[test]
fn data_line_refusing_to_be_sampled_gives_read_error() {
    let (bench, mut device, waits) = setup_refusing(Wire::DataIn, 0);
    assert_eq!(device.get_seconds(&waits), Err(ReadWriteError::ReadError));
    let trace = bench.borrow().trace.clone();
    assert_eq!(trace.last(), Some(&(Op::DataIn, false)));
    assert_eq!(Bench::pulses(&trace), 9);
    assert!(!trace.iter().any(|(op, _)| *op == Op::ChipSelect(false)));
    assert!(!trace.iter().any(|(op, _)| *op == Op::Reclaim));
}

#[test]
fn a_failed_read_sends_no_write_after_it() {
    let (bench, mut device, waits) = setup_refusing(Wire::DataIn, 3);
    bench.borrow_mut().registers[0] = 0x33;
    assert_eq!(device.set_running(false, &waits), Err(ReadWriteError::ReadError));
    let trace = bench.borrow().trace.clone();
    assert_eq!(trace.last(), Some(&(Op::DataIn, false)));
    assert_eq!(trace.iter().filter(|(op, _)| *op == Op::ChipSelect(true)).count(), 1);
    assert_eq!(bench.borrow().registers[0], 0x33);

    let (bench, mut device, waits) = setup_refusing(Wire::DataIn, 3);
    assert_eq!(device.set_seconds(9, &waits), Err(ReadWriteError::ReadError));
    assert_eq!(bench.borrow().trace.iter().filter(|(op, _)| *op == Op::ChipSelect(true)).count(), 1);
}

#[test]
fn a_failed_write_after_a_good_read_reports_the_write() {
    // The read drives the data line eight times, the write refuses on its third.
    let (bench, mut device, waits) = setup_refusing(Wire::DataOut, 10);
    bench.borrow_mut().registers[0] = 0x80;
    assert_eq!(device.set_running(true, &waits), Err(ReadWriteError::WriteError));
    let trace = bench.borrow().trace.clone();
    assert_one_frame(&trace[..106]);
    assert_eq!(Bench::pulses(&trace[106..]), 2);
    assert_eq!(bench.borrow().registers[0], 0x80);
}

#[test]
fn the_next_call_after_a_cut_read_takes_the_line_back_first() {
    let (bench, mut device, waits) = setup_refusing(Wire::DataIn, 2);
    bench.borrow_mut().refusals_left = Some(1);
    bench.borrow_mut().registers[1] = 0x27;
    assert_eq!(device.get_minutes(&waits), Err(ReadWriteError::ReadError));
    assert!(!bench.borrow().host_drives);
    // Chip-select was left high, so the chip does not see the next
    // transaction begin: what it reads is not the register. It does end with
    // chip-select low, and the one after it is good again.
    let before = bench.borrow().trace.len();
    assert!(device.get_minutes(&waits).is_ok());
    let trace = bench.borrow().trace.clone();
    assert_eq!(trace[before], (Op::Reclaim, true));
    let ops: Vec<Op> = trace[before + 1..].iter().map(|(op, _)| *op).collect();
    assert_eq!(ops, read_frame(0x83));
    assert!(bench.borrow().host_drives);
    assert!(!bench.borrow().select);
    let before = bench.borrow().trace.len();
    assert_eq!(device.get_minutes(&waits), Ok(27));
    let ops: Vec<Op> = bench.borrow().trace[before..].iter().map(|(op, _)| *op).collect();
    assert_eq!(ops, read_frame(0x83));
}

#[test]
fn a_whole_operation_can_be_tried_again() {
    let (bench, mut device, waits) = setup_refusing(Wire::ChipSelect, 0);
    bench.borrow_mut().refusals_left = Some(1);
    assert_eq!(device.set_month(11, &waits), Err(ReadWriteError::ChipSelectError));
    assert_eq!(device.set_month(11, &waits), Ok(()));
    assert_eq!(bench.borrow().registers[4], 0x11);
    assert_eq!(device.get_month(&waits), Ok(11));
}

#[test]
fn the_line_is_back_with_the_host_after_every_good_call() {
    let (bench, mut device, waits) = setup();
    device.get_seconds(&waits).unwrap();
    assert!(bench.borrow().host_drives);
    device.set_minutes(3, &waits).unwrap();
    assert!(bench.borrow().host_drives);
    device.set_running(true, &waits).unwrap();
    assert!(bench.borrow().host_drives);
    let reclaims = bench.borrow().ops().iter().filter(|op| **op == Op::Reclaim).count();
    let releases = bench.borrow().ops().iter().filter(|op| **op == Op::Release).count();
    assert_eq!(reclaims, 2);
    assert_eq!(releases, 2);
}

#[test]
fn chip_select_is_low_and_clock_is_low_after_every_good_call() {
    let (bench, mut device, waits) = setup();
    device.set_hour(12, &waits).unwrap();
    assert!(!bench.borrow().select);
    assert!(!bench.borrow().clock);
    device.get_hour(&waits).unwrap();
    assert!(!bench.borrow().select);
    assert!(!bench.borrow().clock);
    assert_eq!(bench.borrow().position(Op::ChipSelect(true)), Some(1));
}
