use display_server::present::plan::{note_step, plan_presentation, PresentStep, CHUNK_BYTES};
use display_server::present::{
    encode_set_mode, DamageRect, FB_OP_BLIT, FB_OP_BLIT_BEGIN, FB_OP_BLIT_CHUNK, FB_OP_BLIT_END,
    FB_OP_PATCH, FB_OP_PATCH_PALETTE_RLE_BATCH, FB_OP_PATCH_RLE, FB_OP_SET_MODE,
};
use display_server::{BufferInfo, Framebuffer, ObjectId, OutputDamageRect, PresentationDamage};

fn info(width: u32, height: u32, stride: u32) -> BufferInfo {
    BufferInfo { pool_id: ObjectId::new(3), offset: 0, width, height, stride, format: 0 }
}

/// A picture in which every pixel has a colour of its own.
fn motley(width: u32, height: u32) -> Vec<u8> {
    (0..width * height).flat_map(|i| i.wrapping_mul(2_654_435_761).to_le_bytes()).collect()
}

fn writes(steps: &[PresentStep]) -> Vec<&Vec<u8>> {
    steps
        .iter()
        .filter_map(|step| match step {
            PresentStep::Write(command) => Some(command),
            _ => None,
        })
        .collect()
}

fn perform(presented: &mut Vec<u8>, pixels: &[u8], width: u32, steps: &[PresentStep]) {
    for step in steps {
        assert!(note_step(presented, pixels, width, step));
    }
}

#[test]
fn a_blit_draws_the_visible_part_and_nothing_else() {
    let mut frame = Framebuffer::new(4, 3);
    let source: Vec<u8> = (1..=36).collect();
    let drawn = frame.blit_buffer(&info(3, 3, 12), &source, -1, 1);
    assert_eq!(drawn, 4);
    assert_eq!(frame.pixel(0, 1).unwrap(), &[5, 6, 7, 8]);
    assert_eq!(frame.pixel(1, 1).unwrap(), &[9, 10, 11, 12]);
    assert_eq!(frame.pixel(0, 2).unwrap(), &[17, 18, 19, 20]);
    assert_eq!(frame.pixel(1, 2).unwrap(), &[21, 22, 23, 24]);
    assert_eq!(frame.pixel(2, 1).unwrap(), &[0, 0, 0, 0]);
    assert_eq!(frame.pixel(0, 0).unwrap(), &[0, 0, 0, 0]);
    assert_eq!(frame.pixel(4, 0), None);
    assert_eq!(frame.pixel(0, 3), None);
}

#[test]
fn a_blit_stops_where_its_source_ends() {
    let mut frame = Framebuffer::new(4, 4);
    let source = vec![9u8; 16];
    assert_eq!(frame.blit_buffer(&info(2, 4, 8), &source, 0, 0), 4);
    assert_eq!(frame.pixel(1, 1).unwrap()[0], 9);
    assert_eq!(frame.pixel(0, 2).unwrap()[0], 0);
    assert_eq!(frame.blit_buffer(&info(2, 2, 8), &source, 4, 0), 0);
    assert_eq!(frame.blit_buffer(&info(2, 2, 8), &source, 0, -2), 0);
}

#[test]
fn clearing_fills_with_the_colour_low_byte_first() {
    let mut frame = Framebuffer::new(2, 1);
    frame.clear(0x4433_2211);
    assert_eq!(frame.pixels(), &[0x11, 0x22, 0x33, 0x44, 0x11, 0x22, 0x33, 0x44]);
    assert_eq!((frame.width(), frame.height()), (2, 1));
}

#[test]
fn the_mode_command_names_the_size() {
    assert_eq!(
        encode_set_mode(0x0102, 3),
        vec![FB_OP_SET_MODE, 0x02, 0x01, 0, 0, 3, 0, 0, 0]
    );
}

#[test]
fn a_picture_without_changes_needs_no_step() {
    let pixels = motley(8, 8);
    let plan = plan_presentation(&pixels, &pixels, 8, 8, &PresentationDamage::Full);
    assert!(plan.complete);
    assert!(plan.steps.is_empty());
}

#[test]
fn a_first_small_picture_goes_in_one_command() {
    let pixels = motley(8, 8);
    let plan = plan_presentation(&[], &pixels, 8, 8, &PresentationDamage::Full);
    assert!(plan.complete);
    let mut presented = Vec::new();
    perform(&mut presented, &pixels, 8, &plan.steps);
    assert_eq!(presented, pixels);
}

#[test]
fn a_first_large_picture_goes_in_chunks() {
    let (width, height) = (128, 128);
    let pixels = motley(width, height);
    let plan = plan_presentation(&[], &pixels, width, height, &PresentationDamage::Full);
    assert!(plan.complete);
    let commands = writes(&plan.steps);
    assert_eq!(commands[0][0], FB_OP_BLIT_BEGIN);
    assert_eq!(commands[commands.len() - 1][0], FB_OP_BLIT_END);
    assert_eq!(commands.len(), 2 + (pixels.len() + CHUNK_BYTES - 1) / CHUNK_BYTES);
    assert!(commands[1..commands.len() - 1].iter().all(|c| c[0] == FB_OP_BLIT_CHUNK));
    assert!(commands.iter().all(|c| c[0] != FB_OP_BLIT));
    let mut presented = Vec::new();
    perform(&mut presented, &pixels, width, &plan.steps);
    assert_eq!(presented, pixels);
}

#[test]
fn a_small_change_is_patched() {
    let presented = motley(16, 16);
    let mut pixels = presented.clone();
    for x in 3..7 {
        let at = 4 * (16 * 5 + x);
        pixels[at..at + 4].copy_from_slice(&[1, 1, 1, 1]);
    }
    let plan = plan_presentation(&presented, &pixels, 16, 16, &PresentationDamage::Full);
    assert!(plan.complete);
    let commands = writes(&plan.steps);
    assert_eq!(commands.len(), 1);
    // One run of one colour.
    assert_eq!(commands[0][0], FB_OP_PATCH_RLE);
    assert_eq!(
        commands[0][1..17].to_vec(),
        [3u32, 5, 4, 1].iter().flat_map(|v| v.to_le_bytes()).collect::<Vec<u8>>()
    );
    let mut shown = presented.clone();
    perform(&mut shown, &pixels, 16, &plan.steps);
    assert_eq!(shown, pixels);
}

#[test]
fn changes_of_many_colours_are_sent_as_they_are() {
    let presented = vec![0u8; 4 * 16 * 16];
    let mut pixels = presented.clone();
    for x in 0..5u8 {
        let at = 4 * (16 * 2 + x as usize);
        pixels[at..at + 4].copy_from_slice(&[x + 1, 7, 7, x + 9]);
    }
    let plan = plan_presentation(&presented, &pixels, 16, 16, &PresentationDamage::Full);
    let commands = writes(&plan.steps);
    assert_eq!(commands.len(), 1);
    assert_eq!(commands[0][0], FB_OP_PATCH);
    assert_eq!(commands[0][17..37].to_vec(), pixels[128..148].to_vec());
    let mut shown = presented.clone();
    perform(&mut shown, &pixels, 16, &plan.steps);
    assert_eq!(shown, pixels);
}

#[test]
fn several_changes_share_one_palette() {
    let presented = vec![0u8; 4 * 64 * 64];
    let mut pixels = presented.clone();
    for y in [1usize, 20, 40] {
        for x in 0..40 {
            let at = 4 * (64 * y + x);
            pixels[at..at + 4].copy_from_slice(&[9, 9, 9, 9]);
        }
    }
    let plan = plan_presentation(&presented, &pixels, 64, 64, &PresentationDamage::Full);
    let commands = writes(&plan.steps);
    assert_eq!(commands.len(), 1);
    assert_eq!(commands[0][0], FB_OP_PATCH_PALETTE_RLE_BATCH);
    let mut shown = presented.clone();
    perform(&mut shown, &pixels, 64, &plan.steps);
    assert_eq!(shown, pixels);
}

#[test]
fn only_the_named_rectangles_are_looked_at() {
    let presented = vec![0u8; 4 * 16 * 16];
    let mut pixels = presented.clone();
    pixels[4 * (16 * 3 + 3)] = 1;
    pixels[4 * (16 * 12 + 12)] = 1;
    let damage = PresentationDamage::Bounded(vec![OutputDamageRect {
        x: 0,
        y: 0,
        width: 8,
        height: 8,
    }]);
    let plan = plan_presentation(&presented, &pixels, 16, 16, &damage);
    assert!(plan.complete);
    let mut shown = presented.clone();
    perform(&mut shown, &pixels, 16, &plan.steps);
    assert_eq!(shown[4 * (16 * 3 + 3)], 1);
    assert_eq!(shown[4 * (16 * 12 + 12)], 0);
}

#[test]
fn noting_a_rectangle_outside_the_picture_fails() {
    let pixels = motley(4, 4);
    let mut presented = vec![0u8; 64];
    let outside = DamageRect { x: 3, y: 3, width: 2, height: 1 };
    assert!(!note_step(&mut presented, &pixels, 4, &PresentStep::Advance(outside)));
    let inside = DamageRect { x: 3, y: 0, width: 1, height: 2 };
    assert!(note_step(&mut presented, &pixels, 4, &PresentStep::Advance(inside)));
    assert_eq!(presented[12..16], pixels[12..16]);
    assert_eq!(presented[28..32], pixels[28..32]);
    assert_eq!(presented[0..12], [0u8; 12]);
}

/// A device that carries out commands byte by byte.
struct Device {
    width: usize,
    screen: Vec<u8>,
    arriving: Vec<u8>,
}

fn word(bytes: &[u8], at: usize) -> usize {
    u32::from_le_bytes([bytes[at], bytes[at + 1], bytes[at + 2], bytes[at + 3]]) as usize
}

impl Device {
    fn paint(&mut self, rect: &[u8], colours: &[[u8; 4]]) {
        let (x, y, width) = (word(rect, 0), word(rect, 4), word(rect, 8));
        assert_eq!(colours.len(), width * word(rect, 12));
        for (i, colour) in colours.iter().enumerate() {
            let at = 4 * ((y + i / width) * self.width + x + i % width);
            self.screen[at..at + 4].copy_from_slice(colour);
        }
    }

    fn receive(&mut self, command: &[u8]) {
        match command[0] {
            FB_OP_PATCH => {
                let colours: Vec<[u8; 4]> =
                    command[17..].chunks(4).map(|c| [c[0], c[1], c[2], c[3]]).collect();
                self.paint(&command[1..17], &colours);
            }
            FB_OP_PATCH_RLE => {
                let mut colours = Vec::new();
                for run in command[17..].chunks(8) {
                    colours.extend(vec![[run[4], run[5], run[6], run[7]]; word(run, 0)]);
                }
                self.paint(&command[1..17], &colours);
            }
            FB_OP_PATCH_PALETTE_RLE_BATCH => {
                let palette = &command[3..3 + 4 * (command[2] as usize + 1)];
                let mut at = 3 + palette.len();
                for _ in 0..command[1] {
                    let rect = &command[at..at + 16];
                    let mut colours = Vec::new();
                    at += 16;
                    while colours.len() < word(rect, 8) * word(rect, 12) {
                        let count = u16::from_le_bytes([command[at], command[at + 1]]) as usize;
                        let c = &palette[4 * command[at + 2] as usize..];
                        colours.extend(vec![[c[0], c[1], c[2], c[3]]; count]);
                        at += 3;
                    }
                    self.paint(rect, &colours);
                }
                assert_eq!(at, command.len());
            }
            FB_OP_BLIT_BEGIN => self.arriving = vec![0; 4 * word(command, 1) * word(command, 5)],
            FB_OP_BLIT_CHUNK => {
                let at = word(command, 1);
                self.arriving[at..at + command.len() - 5].copy_from_slice(&command[5..]);
            }
            FB_OP_BLIT_END => self.screen = self.arriving.clone(),
            code => panic!("unknown command {code}"),
        }
    }
}

#[test]
fn the_device_shows_the_picture_however_it_is_sent() {
    let (width, height) = (200u32, 120u32);
    let size = 4 * (width * height) as usize;
    let mut device =
        Device { width: width as usize, screen: vec![9; size], arriving: Vec::new() };
    let mut presented = Vec::new();
    let mut codes = Vec::new();
    let plain = vec![0u8; size];
    let mut lines = plain.clone();
    for y in [3, 50, 100] {
        for x in 10..60 {
            lines[4 * (y * width as usize + x)] = (x / 20) as u8;
        }
    }
    let mut band = lines.clone();
    for i in 20 * 800..40 * 800 {
        band[i] = (i * i % 251) as u8;
    }
    let mut block = band.clone();
    for i in 70 * 200..80 * 200 {
        block[4 * i + 1] = 77;
    }
    for picture in [&motley(width, height), &plain, &lines, &band, &block, &block] {
        let plan =
            plan_presentation(&presented, picture, width, height, &PresentationDamage::Full);
        assert!(plan.complete);
        for step in &plan.steps {
            if let PresentStep::Write(command) = step {
                codes.push(command[0]);
                device.receive(command);
            }
        }
        perform(&mut presented, picture, width, &plan.steps);
        assert_eq!(&device.screen, picture);
        assert_eq!(&presented, picture);
    }
    for code in [
        FB_OP_PATCH,
        FB_OP_PATCH_RLE,
        FB_OP_PATCH_PALETTE_RLE_BATCH,
        FB_OP_BLIT_BEGIN,
        FB_OP_BLIT_CHUNK,
        FB_OP_BLIT_END,
    ] {
        assert!(codes.contains(&code), "no command {code} was sent");
    }
}
