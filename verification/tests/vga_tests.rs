use bootutil::vga::{Logger, TextVGA};

#[test]
fn putc_stores_cell() {
    let mut vga = TextVGA::new(80, 25, 0xb8000);
    vga.putc(b'a');
    let screen = vga.screen();
    assert_eq!(screen[0], b'a');
    assert_eq!(screen[1], 0xf);
}

#[test]
fn newline_moves_to_next_row() {
    let mut vga = TextVGA::new(80, 25, 0xb8000);
    vga.putc(b'a');
    vga.putc(b'\n');
    vga.putc(b'b');
    let screen = vga.screen();
    assert_eq!(screen[0], b'a');
    assert_eq!(screen[(80 * 2) as usize], b'b');
}

#[test]
fn puts_writes_in_order() {
    let mut vga = TextVGA::new(80, 25, 0xb8000);
    vga.puts("hi");
    let screen = vga.screen();
    assert_eq!(screen[0], b'h');
    assert_eq!(screen[1], 0xf);
    assert_eq!(screen[2], b'i');
    assert_eq!(screen[3], 0xf);
}

#[test]
fn line_wraps_at_width() {
    let mut vga = TextVGA::new(4, 2, 0xb8000);
    vga.puts("abcde");
    let screen = vga.screen();
    assert_eq!(screen[0], b'a');
    assert_eq!(screen[6], b'd');
    // the fifth character lands at the start of the second row
    assert_eq!(screen[8], b'e');
}

#[test]
fn writes_stop_below_last_line() {
    let mut vga = TextVGA::new(2, 1, 0xb8000);
    vga.puts("ab");
    // the cursor now sits below the only line; further bytes change nothing
    vga.puts("zz");
    let screen = vga.screen();
    assert_eq!(screen[0], b'a');
    assert_eq!(screen[2], b'b');
}

#[test]
fn logger_renders_to_console() {
    let vga = TextVGA::new(80, 25, 0xb8000);
    let mut log = Logger::new(vga);
    log.write_str("ok");
    let screen = log.textvga.screen();
    assert_eq!(screen[0], b'o');
    assert_eq!(screen[2], b'k');
}
