use glyphstream::decode;
use glyphstream::Character;
use glyphstream::ControlCode;

/// Builds a raw bit stream the way the wire format expects it: `raw` pushes
/// one physical bit; `framed` first inserts a continuation-bit placeholder
/// whenever the stream stands on a byte boundary, then the payload bit.
struct BitBuf {
    bytes: Vec<u8>,
    nbits: usize,
}

impl BitBuf {
    fn new() -> Self {
        BitBuf { bytes: Vec::new(), nbits: 0 }
    }

    fn raw(&mut self, b: bool) {
        if self.nbits % 8 == 0 {
            self.bytes.push(0);
        }
        if b {
            let i = self.nbits / 8;
            self.bytes[i] |= 1 << (7 - (self.nbits % 8));
        }
        self.nbits += 1;
    }

    fn framed(&mut self, b: bool) {
        if self.nbits % 8 == 0 {
            self.raw(false);
        }
        self.raw(b);
    }

    fn field(&mut self, v: u64, w: u32) {
        for k in (0..w).rev() {
            self.framed((v >> k) & 1 == 1);
        }
    }

    fn pad(&mut self) {
        while self.nbits % 8 != 0 {
            self.raw(false);
        }
    }
}

const BLOCK_SIZES: [usize; 6] = [4096, 1024, 256, 64, 16, 4];

fn control(code: u8) -> Character {
    Character { x_offset: 0, y_offset: 0, control_code: Some(code), graphical_data: None }
}

#[test]
fn scenario_control_record() {
    let out = decode(&[0x05]);
    assert_eq!(out.len(), 1);
    assert_eq!(out[0], control(5));
}

#[test]
fn scenario_blank_graphical() {
    // selector=1, offset flags 0,0, homogeneous=1, fill=0, pad: 0b1001_0000
    let out = decode(&[0x90]);
    assert_eq!(out.len(), 1);
    assert_eq!(out[0].x_offset, 0);
    assert_eq!(out[0].y_offset, 0);
    assert_eq!(out[0].control_code, None);
    assert_eq!(out[0].graphical_data.as_ref().unwrap(), &vec![0u8; 512]);
}

#[test]
fn scenario_truncated_unit() {
    // A control record, then a selector whose graphical body breaks off.
    let out = decode(&[0x05, 0x80]);
    assert_eq!(out.len(), 1);
    assert_eq!(out[0], control(5));
}

#[test]
fn truncated_first_unit_yields_nothing() {
    let out = decode(&[0x80]);
    assert_eq!(out.len(), 0);
}

#[test]
fn scenario_mixed_stream() {
    let out = decode(&[0x05, 0x90]);
    assert_eq!(out.len(), 2);
    assert_eq!(out[0], control(5));
    assert_eq!(out[1].control_code, None);
    assert_eq!(out[1].graphical_data.as_ref().unwrap(), &vec![0u8; 512]);
}

#[test]
fn empty_input_yields_nothing() {
    let out = decode(&[]);
    assert_eq!(out.len(), 0);
}

#[test]
fn best_case_filled_raster() {
    // selector=1, flags 0,0, homogeneous=1, fill=1, pad: 0b1001_1000
    let out = decode(&[0x98]);
    assert_eq!(out.len(), 1);
    assert_eq!(out[0].graphical_data.as_ref().unwrap(), &vec![0xFFu8; 512]);
}

#[test]
fn determinism_on_identical_input() {
    let input = [0x05, 0x90, 0x98];
    let a = decode(&input);
    let b = decode(&input);
    assert_eq!(a, b);
    assert_eq!(a.len(), 3);
}

#[test]
fn x_offset_read_as_unsigned_field() {
    let mut buf = BitBuf::new();
    buf.raw(true); // selector
    buf.framed(true); // offset_x present
    buf.framed(false); // offset_y absent
    buf.field(127, 7); // crosses a byte boundary: a continuation bit is inserted
    buf.framed(true); // homogeneous
    buf.framed(true); // fill
    buf.pad();
    let out = decode(&buf.bytes);
    assert_eq!(out.len(), 1);
    assert_eq!(out[0].x_offset, 127);
    assert_eq!(out[0].y_offset, 0);
    assert_eq!(out[0].graphical_data.as_ref().unwrap(), &vec![0xFFu8; 512]);
}

#[test]
fn y_offset_negative() {
    let mut buf = BitBuf::new();
    buf.raw(true); // selector
    buf.framed(false); // offset_x absent
    buf.framed(true); // offset_y present
    buf.framed(true); // sign
    buf.field(1, 6); // magnitude
    buf.framed(true); // homogeneous
    buf.framed(false); // fill
    buf.pad();
    let out = decode(&buf.bytes);
    assert_eq!(out.len(), 1);
    assert_eq!(out[0].x_offset, 0);
    assert_eq!(out[0].y_offset, 1 - 64);
    assert_eq!(out[0].graphical_data.as_ref().unwrap(), &vec![0u8; 512]);
}

#[test]
fn y_offset_positive() {
    let mut buf = BitBuf::new();
    buf.raw(true);
    buf.framed(false);
    buf.framed(true);
    buf.framed(false); // sign clear
    buf.field(5, 6);
    buf.framed(true);
    buf.framed(false);
    buf.pad();
    let out = decode(&buf.bytes);
    assert_eq!(out.len(), 1);
    assert_eq!(out[0].y_offset, 5);
}

#[test]
fn worst_case_incompressible_raster() {
    // Every homogeneity probe answers 0: one fresh bit per pixel.
    let pixel = |n: usize| n % 5 == 0;
    let mut buf = BitBuf::new();
    buf.raw(true); // selector
    buf.framed(false); // offset_x absent
    buf.framed(false); // offset_y absent
    for n in 0..4096usize {
        for bs in BLOCK_SIZES.iter() {
            if n % bs == 0 {
                buf.framed(false); // not homogeneous
            }
        }
        buf.framed(pixel(n));
    }
    buf.pad();
    let out = decode(&buf.bytes);
    assert_eq!(out.len(), 1);
    let raster = out[0].graphical_data.as_ref().unwrap();
    assert_eq!(raster.len(), 512);
    for j in 0..512usize {
        let mut expected = 0u8;
        for t in 0..8usize {
            if pixel(8 * j + t) {
                expected |= 1 << t;
            }
        }
        assert_eq!(raster[j], expected, "byte {}", j);
    }
}

#[test]
fn finest_level_blocks_cached() {
    // Every 4-pixel block is declared homogeneous; fills alternate.
    let mut buf = BitBuf::new();
    buf.raw(true);
    buf.framed(false);
    buf.framed(false);
    let mut n = 0usize;
    while n < 4096 {
        for (i, bs) in BLOCK_SIZES.iter().enumerate() {
            if n % bs == 0 {
                if i < 5 {
                    buf.framed(false); // coarser level: not homogeneous
                } else {
                    buf.framed(true); // 4-pixel block: homogeneous
                    buf.framed((n / 4) % 2 == 0); // its fill bit
                }
            }
        }
        n += 4; // the whole block came from the cache
    }
    buf.pad();
    let out = decode(&buf.bytes);
    assert_eq!(out.len(), 1);
    let raster = out[0].graphical_data.as_ref().unwrap();
    assert_eq!(raster, &vec![0x0Fu8; 512]);
}

#[test]
fn graphical_then_control_stays_aligned() {
    let mut buf = BitBuf::new();
    buf.raw(true); // graphical record
    buf.framed(true);
    buf.framed(false);
    buf.field(33, 7);
    buf.framed(true);
    buf.framed(false);
    buf.pad(); // next record starts on a byte boundary
    buf.raw(false); // control record
    buf.field(5, 7);
    let out = decode(&buf.bytes);
    assert_eq!(out.len(), 2);
    assert_eq!(out[0].x_offset, 33);
    assert_eq!(out[0].graphical_data.as_ref().unwrap(), &vec![0u8; 512]);
    assert_eq!(out[1], control(5));
}

#[test]
fn control_code_values() {
    assert_eq!(ControlCode::DirectionRightDown.code(), 4);
    assert_eq!(ControlCode::DirectionLeftDown.code(), 5);
    assert_eq!(ControlCode::DirectionRightUp.code(), 6);
    assert_eq!(ControlCode::DirectionLeftUp.code(), 7);
}

#[test]
fn control_codes_above_boundary_bit() {
    // Two control records in a row: the second selector is a raw bit, so
    // both records occupy exactly one byte each.
    let out = decode(&[0x05, 0x7F]);
    assert_eq!(out.len(), 2);
    assert_eq!(out[0], control(5));
    assert_eq!(out[1], control(127));
}
