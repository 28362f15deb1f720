use blinkterm::base64::decode;
use blinkterm::fit::Cells;
use blinkterm::graphics::{
    clear_command, inline_command, placeholder_pane, placeholder_row, png_command,
    shared_memory_command, wrap_for_tmux, Painter, Raw, CHUNK, DCS_LIMIT, DIACRITICS, IMAGE_ID,
    IN_FLIGHT, PLACEHOLDER, PLACEHOLDER_IMAGE_ID, PLACEHOLDER_MAX, PLACEMENT_ID,
};
use blinkterm::route::{Payload, Placement, Route, Transport, Wrap};

/// What the names of a run start with.
fn prefix() -> String {
    "blinkterm-1-2".to_string()
}

/// A graphics command, read back: the control keys and the payload.
struct Command {
    action: String,
    delete: String,
    format: u32,
    width: u32,
    height: u32,
    medium: String,
    image_id: u32,
    placement_id: u32,
    cols: u32,
    rows: u32,
    cursor_stays: bool,
    quiet: u32,
    more: bool,
    payload: Vec<u8>,
}

fn command(body: &[u8]) -> Command {
    let (control, payload) = match body.iter().position(|&b| b == b';') {
        Some(semicolon) => (&body[..semicolon], &body[semicolon + 1..]),
        None => (body, &b""[..]),
    };
    let control = String::from_utf8(control.to_vec()).expect("ascii");
    let word = |name: &str, otherwise: &str| {
        control
            .split(',')
            .filter_map(|key| key.split_once('='))
            .find(|(key, _)| *key == name)
            .map_or(otherwise.to_string(), |(_, value)| value.to_string())
    };
    let number = |name: &str| word(name, "0").parse::<u32>().expect("a number");
    Command {
        action: word("a", "t"),
        delete: word("d", "a"),
        format: number("f"),
        width: number("s"),
        height: number("v"),
        medium: word("t", "d"),
        image_id: number("i"),
        placement_id: number("p"),
        cols: number("c"),
        rows: number("r"),
        cursor_stays: number("C") == 1,
        quiet: number("q"),
        more: number("m") == 1,
        payload: decode(payload).expect("base64"),
    }
}

fn cells(cols: u32, rows: u32) -> Cells {
    Cells { cols, rows }
}

/// A 2x2 picture, in each of the two layouts the protocol takes.
fn rgb() -> Vec<u8> {
    vec![
        10, 20, 30, 40, 50, 60, //
        70, 80, 90, 100, 110, 120,
    ]
}

fn rgba() -> Vec<u8> {
    vec![
        10, 20, 30, 255, 40, 50, 60, 255, //
        70, 80, 90, 255, 100, 110, 120, 255,
    ]
}

/// Pull the APC bodies out the way the terminal's parser does.
fn apc_bodies(bytes: &[u8]) -> Vec<Vec<u8>> {
    let mut bodies = Vec::new();
    let mut rest = bytes;
    while let Some(start) = find(rest, b"\x1b_G") {
        let body = &rest[start + 3..];
        let end = find(body, b"\x1b\\").expect("unterminated APC");
        bodies.push(body[..end].to_vec());
        rest = &body[end + 2..];
    }
    bodies
}

fn find(haystack: &[u8], needle: &[u8]) -> Option<usize> {
    haystack
        .windows(needle.len())
        .position(|window| window == needle)
}

#[test]
fn a_shared_memory_frame_names_an_object_and_says_nothing_back() {
    let pixels = rgb();
    let raw = Raw::rgb(&pixels, 640, 368);
    let bytes = shared_memory_command("/blinkterm-1-2", &raw, cells(80, 23));
    let bodies = apc_bodies(&bytes);
    assert_eq!(bodies.len(), 1);
    let cmd = command(&bodies[0]);
    assert_eq!(cmd.action, "T");
    assert_eq!(cmd.format, 24, "the pixels go over, not a file");
    assert_eq!((cmd.width, cmd.height), (640, 368));
    assert_eq!(cmd.medium, "s");
    assert_eq!(cmd.image_id, IMAGE_ID);
    assert_eq!(cmd.placement_id, PLACEMENT_ID);
    assert_eq!((cmd.cols, cmd.rows), (80, 23));
    assert!(cmd.cursor_stays, "the status line is written after this");
    assert_eq!(cmd.quiet, 2, "nothing is reading a reply");
    assert_eq!(cmd.payload, b"/blinkterm-1-2");
}

/// A still is RGBA because that is what the PNG decoder produces, and the
/// protocol takes it under a format of its own rather than a conversion.
#[test]
fn a_still_goes_over_as_rgba_and_a_motion_frame_as_rgb() {
    let three = rgb();
    let four = rgba();
    for (raw, format) in [
        (Raw::rgb(&three, 2, 2), 24),
        (Raw::rgba(&four, 2, 2), 32),
    ] {
        let bodies = apc_bodies(&inline_command(&raw, cells(2, 1)));
        let cmd = command(&bodies[0]);
        assert_eq!(cmd.format, format);
        assert_eq!((cmd.width, cmd.height), (2, 2));
    }
}

#[test]
fn an_inline_frame_is_the_picture_in_chunks_that_reassemble() {
    let pixels: Vec<u8> = (0..CHUNK * 5).map(|i| (i * 31) as u8).collect();
    let raw = Raw::rgb(&pixels, (CHUNK as u32 * 5) / 3, 1);
    let bodies = apc_bodies(&inline_command(&raw, cells(10, 4)));
    assert!(bodies.len() > 1);

    let first = command(&bodies[0]);
    assert_eq!(first.medium, "d");
    assert_eq!(first.image_id, IMAGE_ID);
    assert!(first.more);
    assert!(
        !command(bodies.last().unwrap()).more
    );

    let mut joined = Vec::new();
    for body in &bodies {
        let semicolon = body.iter().position(|&b| b == b';').unwrap();
        joined.extend_from_slice(&decode(&body[semicolon + 1..]).expect("base64"));
    }
    assert_eq!(joined, pixels);
}

#[test]
fn switching_tabs_takes_the_old_page_off_the_screen() {
    let mut painter = Painter::at(false, prefix());
    let pixels = rgb();
    let frame = painter.frame(Raw::rgb(&pixels, 2, 2), cells(4, 2), 2, 1, None);
    let shown = command(&apc_bodies(&frame)[0]);
    assert_eq!((shown.image_id, shown.placement_id), (IMAGE_ID, PLACEMENT_ID));

    let cleared = command(&apc_bodies(&clear_command())[0]);
    assert_eq!(cleared.action, "d");
    assert_eq!(
        cleared.delete, "I",
        "the picture is gone, and so are its pixels"
    );
    assert_eq!(
        (cleared.image_id, cleared.placement_id),
        (shown.image_id, shown.placement_id)
    );
}

#[test]
fn a_frame_puts_the_cursor_where_the_picture_goes() {
    let mut painter = Painter::at(false, prefix());
    assert_eq!(painter.transport(), Transport::Inline);
    let bytes = painter.frame(Raw::rgb(b"rgb", 1, 1), cells(4, 2), 2, 1, None);
    assert!(bytes.starts_with(b"\x1b[2;1H"), "{bytes:?}");
}

#[test]
fn frames_get_a_fresh_name_each_time_because_the_last_one_was_eaten() {
    let mut painter = Painter::at(true, prefix());
    assert_eq!(painter.transport(), Transport::SharedMemory);

    let mut names = Vec::new();
    for _ in 0..4 {
        let object = painter.object_name().expect("a name to write to");
        let bytes = painter.frame(
            Raw::rgb(b"rgb", 1, 1),
            cells(4, 2),
            2,
            1,
            Some(object.clone()),
        );
        let body = apc_bodies(&bytes).remove(0);
        let cmd = command(&body);
        let name = String::from_utf8(cmd.payload).expect("a name");
        assert!(name.starts_with('/'), "a POSIX name: {name}");
        assert!(!name.contains(".part"), "{name}");
        assert_eq!(name.trim_start_matches('/'), object);
        names.push(name);
    }
    names.sort();
    names.dedup();
    assert_eq!(names.len(), 4, "every frame needs its own name");
}

#[test]
fn a_terminal_that_never_reads_a_name_gets_the_bytes_instead() {
    let mut painter = Painter::at(true, prefix());
    let mut left: Vec<String> = Vec::new();
    for _ in 0..IN_FLIGHT * 2 {
        let name = painter.object_name();
        if let Some(name) = &name {
            left.push(name.clone());
        }
        painter.frame(Raw::rgb(b"rgb", 1, 1), cells(4, 2), 2, 1, name);
        while let Some(overdue) = painter.overdue() {
            // Nothing read it: it is still there to be removed.
            let before = left.len();
            left.retain(|name| *name != overdue);
            painter.collected(left.len() < before);
        }
    }
    assert_eq!(
        painter.transport(),
        Transport::Inline,
        "unconsumed names mean the terminal does not speak t=s"
    );
    for name in painter.clean_up() {
        left.retain(|kept| *kept != name);
    }
    assert_eq!(left.len(), 0, "and nothing is left behind in /dev/shm");
}

#[test]
fn a_terminal_that_reads_what_it_is_told_keeps_getting_names() {
    let mut painter = Painter::at(true, prefix());
    for _ in 0..IN_FLIGHT * 4 {
        let name = painter.object_name();
        assert!(name.is_some());
        painter.frame(Raw::rgb(b"rgb", 1, 1), cells(4, 2), 2, 1, name);
        while painter.overdue().is_some() {
            painter.collected(false);
        }
    }
    assert_eq!(painter.transport(), Transport::SharedMemory);
}

#[test]
fn a_frame_that_could_not_be_written_goes_inline_from_then_on() {
    let mut painter = Painter::at(true, prefix());
    let bytes = painter.frame(Raw::rgb(b"rgb", 1, 1), cells(4, 2), 2, 1, None);
    assert_eq!(command(&apc_bodies(&bytes)[0]).medium, "d");
    assert_eq!(painter.transport(), Transport::Inline);
    assert_eq!(painter.object_name(), None);
}

/// tmux's passthrough, as a model: every `ESC P tmux;` … `ESC \` has its
/// wrapper taken off and its doubled escapes halved, and what is outside
/// a wrapper goes through as it is. Checked against what tmux 3.4 was
/// recorded emitting for the wrapped query (the first test below uses the
/// recorded bytes), and against the real tmux by hand.
fn tmux_unwrap(bytes: &[u8]) -> Vec<u8> {
    let mut out = Vec::new();
    let mut rest = bytes;
    while !rest.is_empty() {
        if let Some(body) = rest.strip_prefix(b"\x1bPtmux;") {
            let mut i = 0;
            loop {
                match (body.get(i), body.get(i + 1)) {
                    (Some(0x1b), Some(0x1b)) => {
                        out.push(0x1b);
                        i += 2;
                    }
                    (Some(0x1b), Some(b'\\')) => {
                        i += 2;
                        break;
                    }
                    (Some(&byte), _) => {
                        out.push(byte);
                        i += 1;
                    }
                    (None, _) => panic!("an unterminated wrapper"),
                }
            }
            rest = &body[i..];
        } else {
            out.push(rest[0]);
            rest = &rest[1..];
        }
    }
    out
}

fn tmux_route() -> Route {
    Route {
        transport: Transport::Inline,
        payload: Payload::Png,
        placement: Placement::Unicode,
        wrap: Wrap::Tmux,
        every_nth: 2,
    }
}

/// A 1x1 PNG, the smallest real file there is.
fn png_1x1() -> Vec<u8> {
    decode(
        b"iVBORw0KGgoAAAANSUhEUgAAAAEAAAABCAYAAAAfFcSJAAAADUlEQVR42mP8z8BQDwAEhQGAhKmMIQAAAABJRU5ErkJggg==",
    )
    .expect("base64")
}

#[test]
fn wrapping_for_tmux_doubles_every_escape_and_closes_with_st() {
    let query = b"\x1b_Gi=31,s=1,v=1,a=q,t=d,f=24;AAAA\x1b\\";
    let wrapped = wrap_for_tmux(query);
    // What the design's probe wrote into a tmux pane, byte for byte, and
    // what tmux then emitted to the terminal outside it.
    assert_eq!(
        wrapped,
        b"\x1bPtmux;\x1b\x1b_Gi=31,s=1,v=1,a=q,t=d,f=24;AAAA\x1b\x1b\\\x1b\\".to_vec()
    );
    assert_eq!(tmux_unwrap(&wrapped), query.to_vec());
    assert!(
        wrap_for_tmux(b"").is_empty(),
        "nothing is no wrapper at all"
    );
}

#[test]
fn a_frame_of_two_hundred_and_fifty_chunks_is_cut_into_wrappers_under_the_dcs_limit_and_never_inside_a_chunk(
) {
    let pixels: Vec<u8> = (0..CHUNK * 3 / 4 * 600).map(|i| (i * 7) as u8).collect();
    let frame = inline_command(&Raw::rgb(&pixels, 600, CHUNK as u32 / 4), cells(80, 24));
    assert!(apc_bodies(&frame).len() >= 250);
    let wrapped = wrap_for_tmux(&frame);
    let wrappers: Vec<&[u8]> = split_wrappers(&wrapped);
    assert!(wrappers.len() >= 2, "{} wrappers", wrappers.len());
    for wrapper in &wrappers {
        assert!(wrapper.len() <= DCS_LIMIT, "{}", wrapper.len());
        // Each one, unwrapped, is whole commands and nothing cut.
        let inner = tmux_unwrap(wrapper);
        assert!(inner.starts_with(b"\x1b_G"));
        assert!(inner.ends_with(b"\x1b\\"));
        let bodies = apc_bodies(&inner);
        let rebuilt: Vec<u8> = bodies
            .iter()
            .flat_map(|body| [&b"\x1b_G"[..], body, b"\x1b\\"].concat())
            .collect();
        assert_eq!(rebuilt, inner);
    }
    assert!(
        wrappers.len() <= wrapped.len() / (DCS_LIMIT / 2) + 1,
        "as few wrappers as the limit allows"
    );
}

/// The wrappers in `bytes`, each `ESC P tmux;` to its closing `ESC \`.
fn split_wrappers(bytes: &[u8]) -> Vec<&[u8]> {
    let mut out = Vec::new();
    let mut start = 0;
    let mut i = 0;
    while i + 1 < bytes.len() {
        if bytes[i] == 0x1b && bytes[i + 1] == 0x1b {
            i += 2;
            continue;
        }
        if bytes[i] == 0x1b && bytes[i + 1] == b'\\' {
            out.push(&bytes[start..i + 2]);
            i += 2;
            start = i;
            continue;
        }
        i += 1;
    }
    out
}

#[test]
fn unwrapping_what_was_wrapped_gives_the_frame_back() {
    let mut painter = Painter::at_with(false, prefix(), tmux_route());
    let png: Vec<u8> = (0..300_000u32).map(|i| (i % 251) as u8).collect();
    let bytes = painter.png_frame(&png, cells(100, 29), 2, 1);
    let unwrapped = tmux_unwrap(&bytes);
    assert_eq!(
        unwrapped,
        png_command(&png, cells(100, 29), Placement::Unicode)
    );
    let mut joined = Vec::new();
    for body in apc_bodies(&unwrapped) {
        let semicolon = body.iter().position(|&b| b == b';').unwrap();
        joined.extend_from_slice(&decode(&body[semicolon + 1..]).expect("base64"));
    }
    assert_eq!(joined, png, "the engine's bytes, untouched");
}

#[test]
fn a_png_frame_is_f_100_with_no_size_and_the_pixels_are_the_engines_bytes() {
    let route = Route {
        placement: Placement::Direct,
        wrap: Wrap::Bare,
        ..tmux_route()
    };
    let mut painter = Painter::at_with(false, prefix(), route);
    let png = png_1x1();
    let bytes = painter.png_frame(&png, cells(4, 2), 2, 1);
    assert!(bytes.starts_with(b"\x1b[2;1H"), "placed at the cursor");
    let bodies = apc_bodies(&bytes);
    let cmd = command(&bodies[0]);
    assert_eq!(cmd.format, 100);
    assert_eq!((cmd.width, cmd.height), (0, 0), "the file says");
    assert_eq!(cmd.medium, "d");
    assert_eq!(cmd.payload, png);
    assert_eq!((cmd.image_id, cmd.placement_id), (IMAGE_ID, PLACEMENT_ID));
}

#[test]
fn a_placeholder_frame_carries_u_1_and_no_placement_id() {
    let mut painter = Painter::at_with(false, prefix(), tmux_route());
    assert_eq!(painter.transport(), Transport::Inline);
    let bytes = painter.png_frame(&png_1x1(), cells(100, 29), 2, 1);
    assert!(
        bytes.starts_with(b"\x1bPtmux;"),
        "no cursor move under tmux"
    );
    let inner = tmux_unwrap(&bytes);
    let body = apc_bodies(&inner).remove(0);
    let control =
        String::from_utf8_lossy(&body[..body.iter().position(|&b| b == b';').unwrap()])
            .into_owned();
    let keys: Vec<&str> = control.split(',').collect();
    assert!(keys.contains(&"U=1"), "{control}");
    assert!(keys.contains(&"i=16"), "{control}");
    assert!(
        keys.contains(&"c=100") && keys.contains(&"r=29"),
        "{control}"
    );
    assert!(!keys.iter().any(|key| key.starts_with("p=")), "{control}");
    assert!(!keys.iter().any(|key| key.starts_with("C=")), "{control}");
    // Raw pixels on the same route say the same, with their size.
    let raw = painter.frame(Raw::rgb(&rgb(), 2, 2), cells(100, 29), 2, 1, None);
    let body = apc_bodies(&tmux_unwrap(&raw)).remove(0);
    let cmd = command(&body);
    assert_eq!(
        (cmd.width, cmd.height, cmd.image_id),
        (2, 2, PLACEHOLDER_IMAGE_ID)
    );
}

#[test]
fn the_diacritic_table_has_two_hundred_and_ninety_seven_entries_and_starts_with_overline() {
    assert_eq!(DIACRITICS.len(), 297);
    assert_eq!(PLACEHOLDER_MAX, 297);
    assert_eq!(DIACRITICS[0], 0x0305, "combining overline");
    assert_eq!(
        (DIACRITICS[1], DIACRITICS[2], DIACRITICS[29], DIACRITICS[30]),
        (0x030D, 0x030E, 0x036F, 0x0483)
    );
    assert_eq!(DIACRITICS[296], 0x1D244);
    assert!(
        DIACRITICS.windows(2).all(|pair| pair[0] < pair[1]),
        "in order"
    );
    for code in DIACRITICS {
        assert!(char::from_u32(code).is_some(), "{code:#x} is a character");
    }
}

#[test]
fn a_placeholder_row_puts_the_row_diacritic_then_the_column_diacritic_on_every_cell() {
    let row = placeholder_row(16, 0, 2, 2);
    let mut wanted = b"\x1b[2;1H\x1b[38;5;16m".to_vec();
    wanted.extend_from_slice(&[0xF4, 0x8E, 0xBB, 0xAE, 0xCC, 0x85, 0xCC, 0x85]);
    wanted.extend_from_slice(&[0xF4, 0x8E, 0xBB, 0xAE, 0xCC, 0x85, 0xCC, 0x8D]);
    wanted.extend_from_slice(b"\x1b[39m");
    assert_eq!(row, wanted);
    let third = placeholder_row(16, 2, 1, 4);
    assert!(third.starts_with(b"\x1b[4;1H"));
    assert!(String::from_utf8(third)
        .unwrap()
        .contains("\u{10EEEE}\u{030E}\u{0305}"));
}

#[test]
fn a_placeholder_pane_stops_at_two_hundred_and_ninety_seven_columns() {
    let pane = placeholder_pane(16, cells(400, 3), 2);
    let text = String::from_utf8(pane).expect("utf-8");
    assert_eq!(text.matches(PLACEHOLDER).count(), 297 * 3);
    let tall = placeholder_pane(16, cells(1, 400), 2);
    assert_eq!(
        String::from_utf8(tall)
            .unwrap()
            .matches(PLACEHOLDER)
            .count(),
        297
    );
    let mut painter = Painter::at_with(false, prefix(), tmux_route());
    let bytes = painter.png_frame(&png_1x1(), cells(400, 30), 2, 1);
    let body = apc_bodies(&tmux_unwrap(&bytes)).remove(0);
    let cmd = command(&body);
    assert_eq!(
        (cmd.cols, cmd.rows),
        (297, 30),
        "the placement is the cells the placeholders can address"
    );
}

#[test]
fn the_placeholder_image_id_is_one_tmux_forwards_unchanged() {
    // tmux rewrites `38;5;n` below 8 as a basic colour and passes 16 up
    // verbatim, and `38;5` stops at 255.
    assert!((16..256).contains(&PLACEHOLDER_IMAGE_ID));
    let mut painter = Painter::at_with(false, prefix(), tmux_route());
    let cells = painter.placeholders(cells(1, 1), 2);
    assert!(
        cells.starts_with(b"\x1b[2;1H\x1b[38;5;16m"),
        "the id as an indexed colour, not a 24-bit one tmux would snap: {cells:?}"
    );
}

#[test]
fn a_placeholder_pane_is_written_once_and_again_after_a_clear_or_a_resize() {
    let mut painter = Painter::at_with(false, prefix(), tmux_route());
    assert!(!painter.placeholders(cells(10, 4), 2).is_empty());
    assert!(painter.placeholders(cells(10, 4), 2).is_empty(), "once");
    assert!(
        !painter.placeholders(cells(12, 4), 2).is_empty(),
        "a new size"
    );
    painter.clear();
    assert!(
        !painter.placeholders(cells(12, 4), 2).is_empty(),
        "after a clear"
    );
    painter.invalidate_placeholders();
    assert!(
        !painter.placeholders(cells(12, 4), 2).is_empty(),
        "after a resize"
    );
    let mut local = Painter::at(false, prefix());
    assert!(
        local.placeholders(cells(10, 4), 2).is_empty(),
        "never at the cursor"
    );
}

#[test]
fn clearing_under_placeholders_deletes_the_virtual_placement_with_capital_i() {
    let mut painter = Painter::at_with(false, prefix(), tmux_route());
    let clear = painter.clear();
    assert_eq!(
        tmux_unwrap(&clear),
        b"\x1b_Ga=d,d=I,i=16,q=2\x1b\\".to_vec()
    );
    assert!(clear.starts_with(b"\x1bPtmux;"), "wrapped, or tmux eats it");

    let mut local = Painter::at(false, prefix());
    assert_eq!(local.clear(), clear_command());
}

#[test]
fn a_route_that_says_inline_is_inline_whatever_dev_shm_says() {
    assert_eq!(Painter::at(true, prefix()).transport(), Transport::SharedMemory);
    let ssh = Route {
        placement: Placement::Direct,
        wrap: Wrap::Bare,
        ..tmux_route()
    };
    let painter = Painter::at_with(true, prefix(), ssh);
    assert_eq!(painter.transport(), Transport::Inline);
    assert_eq!(painter.route().transport, Transport::Inline);
    assert_eq!(
        Painter::at_with(true, prefix(), Route::local(true)).transport(),
        Transport::SharedMemory
    );
}
