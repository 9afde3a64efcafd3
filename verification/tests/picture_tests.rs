use wsntp::picture::Picture;

fn gradient(w: usize, h: usize) -> Picture {
    let mut data = Vec::with_capacity(w * h * 3);
    for y in 0..h {
        for x in 0..w {
            data.push((x + y) as u8);
            data.push((x * 2) as u8);
            data.push((y * 3) as u8);
        }
    }
    Picture { width: w, height: h, data }
}

#[test]
fn block_channel_reads_row_major() {
    let pic = gradient(20, 17);
    let green = pic.block_channel(1, 1, 1);
    assert_eq!(green.len(), 64);
    for k in 0..64 {
        let (x, y) = (8 + k % 8, 8 + k / 8);
        assert_eq!(green[k], (x * 2) as u8);
    }
    let blue = pic.block_channel(0, 1, 2);
    assert_eq!(blue[9], ((8 + 1) * 3) as u8);
}

#[test]
fn store_block_channel_touches_only_the_block() {
    let mut pic = gradient(24, 16);
    let before = pic.data.clone();
    let samples: Vec<u8> = (0..64).map(|k| 200 + (k % 50) as u8).collect();
    pic.store_block_channel(2, 1, 0, &samples);
    assert_eq!(pic.block_channel(2, 1, 0), samples);
    for y in 0..16 {
        for x in 0..24 {
            for c in 0..3 {
                let i = (y * 24 + x) * 3 + c;
                if c == 0 && x >= 16 && y >= 8 {
                    assert_eq!(pic.data[i], samples[(y - 8) * 8 + (x - 16)]);
                } else {
                    assert_eq!(pic.data[i], before[i]);
                }
            }
        }
    }
}
