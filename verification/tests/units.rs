use rust_os::brainf::BrainF;
use rust_os::commands::CommandRunner;
use rust_os::floppy_block_driver::{lba_to_chs, MsrStatus};
use rust_os::keyboard_routing::KeyboardRouter;
use rust_os::rng::RngSeed;
use rust_os::speaker::{beep, PcSpeaker};
use rust_os::timer_routing::TimeRouter;
use rust_os::vga_buffer::{ColorCode, ModeController};
use rust_os::vi::FakeVim;
use rust_os::ata_block_driver::DriveProperties;
use rust_os::QemuExitCode;

#[test]
fn rng_counts_up() {
    let mut s = RngSeed { times: 41 };
    s.inc();
    assert_eq!(s.times, 42);
    assert_eq!(s.get(), 43);
}

#[test]
fn floppy_geometry() {
    assert_eq!(lba_to_chs(0), (0, 0, 1));
    assert_eq!(lba_to_chs(19), (0, 1, 2));
    assert_eq!(lba_to_chs(75), (2, 0, 4));
    let mut m = MsrStatus { bits: 0 };
    m.set_bits(0x80);
    assert_eq!(m.bits, 0x80);
}

#[test]
fn color_codes_pack_and_unpack() {
    let c = ColorCode::new(9, 1);
    assert_eq!(c.code, 0x19);
    assert_eq!(c.decompose(), (9, 1));
}

#[test]
fn mode_controller_blinks_every_fifth_tick() {
    let mut m = ModeController::new();
    assert!(m.blink_current());
    for _ in 0..4 {
        assert!(!m.blink_current());
    }
    assert!(m.blink_current());
    assert!(m.graphics_init());
    assert!(!m.graphics_init());
    assert!(m.text_init());
}

#[test]
fn speaker_beep_divisor() {
    let mut sp = PcSpeaker::new();
    let mut tm = rust_os::timer_routing::Modes::new();
    assert_eq!(beep(&mut sp, &mut tm, 440, 2), Some(1193180 / 440));
    assert!(!tm.terminal);
    assert!(tm.beep);
    assert!(!sp.inc_timer(&mut tm));
    assert!(sp.inc_timer(&mut tm));
    assert!(tm.terminal);
}

#[test]
fn song_plays_first_note() {
    let mut sp = PcSpeaker::new();
    let mut tm = rust_os::timer_routing::Modes::new();
    let mut km = rust_os::keyboard_routing::Modes::new();
    sp.start_song_loop(1, &mut tm, &mut km);
    let mut first = None;
    for _ in 0..5 {
        if let Some(d) = sp.song_loop(&mut tm, &mut km) {
            first = Some(d);
            break;
        }
    }
    assert_eq!(first, Some(1193180 / 659));
}

#[test]
fn timer_router_routes_terminal_tick() {
    let mut tr = TimeRouter::new();
    let mut mc = ModeController::new();
    let mut seed = RngSeed { times: 0 };
    let mut sp = PcSpeaker::new();
    let mut km = rust_os::keyboard_routing::Modes::new();
    let mut vim = FakeVim::new();
    let out = tr.handle(&mut mc, &mut seed, &mut sp, &mut km, &mut vim);
    assert!(out.blink_text);
    assert!(!out.run_tetris);
    assert_eq!(seed.times, 1);
}

#[test]
fn keyboard_router_game_keys() {
    let mut kr = KeyboardRouter::new();
    let mut vim = FakeVim::new();
    kr.mode.terminal = false;
    kr.mode.tetris = true;
    assert_eq!(kr.move_cursor(1, &mut vim), (false, Some(2)));
    assert_eq!(kr.move_cursor(-1, &mut vim), (false, Some(1)));
    assert_eq!(kr.down(&mut vim), Some(3));
    assert_eq!(kr.up(&mut vim), Some(6));
    assert_eq!(kr.esc(&mut vim), Some(9));
}

#[test]
fn command_line_editing() {
    let mut cr = CommandRunner::new();
    assert!(!cr.add_to_buffer(b'l'));
    assert!(!cr.add_to_buffer(b's'));
    assert_eq!(cr.command_buffer, b"ls".to_vec());
    assert!(cr.add_to_buffer(b'\n'));
    cr.move_command_cursor(-1);
    assert_eq!(cr.index, 1);
    cr.remove_from_buffer();
    assert_eq!(cr.command_buffer, b"s".to_vec());
}

#[test]
fn command_splitting() {
    let mut cr = CommandRunner::new();
    for b in b"echo hi;ls" {
        cr.add_to_buffer(*b);
    }
    let (commands, args) = cr.split_buffer();
    assert_eq!(commands, vec![b"echo".to_vec(), b"ls".to_vec()]);
    assert_eq!(args, vec![b"hi".to_vec(), b"".to_vec()]);
}

#[test]
fn count_parsing() {
    assert_eq!(rust_os::commands::parse_count(&b"12".to_vec(), 1), 12);
    assert_eq!(rust_os::commands::parse_count(&b"".to_vec(), 1), 1);
    assert_eq!(rust_os::commands::parse_count(&b"x2".to_vec(), 5), 5);
}

#[test]
fn interpreter_runs_a_program() {
    // three pluses, output, input echoed back
    let mut bf = BrainF::new();
    bf.load(b"+++.>,.".to_vec());
    let (done, out) = bf.handle_bf_loop();
    assert!(!done);
    assert_eq!(out, vec![3]);
    let (done, out) = bf.handle_scancode(b'A');
    assert!(done);
    assert_eq!(out, vec![b'A']);
}

#[test]
fn interpreter_loops_and_wraps() {
    let mut bf = BrainF::new();
    // five twos summed by a loop: 2 * 5 = 10
    bf.load(b"++[>+++++<-]>.".to_vec());
    let (done, out) = bf.handle_bf_loop();
    assert!(done);
    assert_eq!(out, vec![10]);
    let mut bf2 = BrainF::new();
    bf2.load(b"-.".to_vec());
    let (_, out2) = bf2.handle_bf_loop();
    assert_eq!(out2, vec![255]);
}

#[test]
fn editor_state_machine() {
    let mut vim = FakeVim::new();
    assert_eq!(vim.handle_scancode(b'i'), None);
    assert!(vim.input_mode);
    vim.handle_scancode(b'h');
    vim.handle_scancode(b'i');
    assert_eq!(vim.data.len(), 2);
    vim.handle_esc();
    assert!(!vim.input_mode);
    assert_eq!(vim.handle_scancode(b':'), None);
    assert!(vim.command_mode);
    vim.handle_scancode(b'w');
    let line = vim.handle_scancode(b'\n');
    assert_eq!(line, Some(b":w".to_vec()));
    assert!(!vim.command_mode);
}

#[test]
fn editor_cursor_blinks() {
    let mut vim = FakeVim::new();
    for _ in 0..6 {
        assert!(!vim.blink_cursor());
    }
    assert!(vim.blink_cursor());
    assert!(vim.blink_on);
}

#[test]
fn drive_identity() {
    let d = DriveProperties { lba28_sectors: 100, lba48_sectors: None };
    assert!(!d.supports_lba48());
    assert_eq!(d.sector_count(), 100);
    let d2 = DriveProperties { lba28_sectors: 100, lba48_sectors: Some(5000) };
    assert!(d2.supports_lba48());
    assert_eq!(d2.sector_count(), 5000);
}

#[test]
fn emulator_exit_codes() {
    assert_eq!(QemuExitCode::Success.code(), 0x10);
    assert_eq!(QemuExitCode::Failed.code(), 0x11);
}

#[test]
fn shell_commands_drive_the_volume() {
    let mut vol = rust_os::ustar::Volume::mount(rust_os::device::BlockDevice::new(64));
    let mut cr = CommandRunner::new();
    cr.init(&mut vol);
    assert!(cr.mkdir(&mut vol, "docs").is_ok());
    assert!(cr.cd(&mut vol, "docs"));
    assert!(cr.touchhello(&mut vol, "greet").is_ok());
    assert_eq!(cr.cat(&mut vol, "greet"), b"Hello World!".to_vec());
    assert!(cr.rm(&mut vol, "greet").is_ok());
    assert_eq!(cr.cat(&mut vol, "greet"), Vec::<u8>::new());
    assert!(cr.defrag(&mut vol).is_ok());
    let lines = cr.proot(&vol);
    assert!(lines.contains(&"/docs/".to_string()));
}
