use newtua_stuffit::error::ErrorKind;
use newtua_stuffit::sitx::cyanide::{
    calculate_ternary_frequencies, decode, decode_framed, RangeCoderModel, MARKOV_GROUPS,
};

struct Encoder {
    out: Vec<u8>,
    low: u32,
    range: u32,
}

impl Encoder {
    fn new() -> Self {
        Encoder {
            out: Vec::new(),
            low: 0,
            range: 0xffff_ffff,
        }
    }

    fn symbol(&mut self, freqs: &[u32], symbol: usize) {
        let total: u32 = freqs.iter().sum();
        let below: u32 = freqs[..symbol].iter().sum();
        self.range /= total;
        self.low = self.low.wrapping_add(self.range * below);
        self.range *= freqs[symbol];
        loop {
            if (self.low ^ self.low.wrapping_add(self.range)) >= 0x0100_0000 {
                if self.range >= 0x1_0000 {
                    break;
                }
                self.range = 0u32.wrapping_sub(self.low) & 0xffff;
            }
            self.out.push((self.low >> 24) as u8);
            self.range <<= 8;
            self.low <<= 8;
        }
    }

    fn finish(mut self) -> Vec<u8> {
        self.out.extend_from_slice(&self.low.to_be_bytes());
        self.out
    }
}

struct Ternary {
    groups: Vec<[u32; 3]>,
    high: RangeCoderModel,
    low: Vec<RangeCoderModel>,
    before: [usize; 3],
    quiet: bool,
}

impl Ternary {
    fn new(count: usize) -> Self {
        let mut low = Vec::new();
        let mut left = count;
        let mut width = 2;
        while left != 0 {
            let take = if left < 3 * width { left } else { width };
            low.push(RangeCoderModel::new(take));
            left -= take;
            width *= 2;
        }
        Ternary {
            groups: vec![[0; 3]; 14],
            high: RangeCoderModel::new(low.len() + 1),
            low,
            before: [0; 3],
            quiet: true,
        }
    }

    fn send(&mut self, e: &mut Encoder, v: u8) {
        let [prev, prev2, prev3] = self.before;
        let group = MARKOV_GROUPS[prev3 * 9 + prev2 * 3 + prev];
        let t = (v as usize).min(2);
        let (freqs, meanings) = calculate_ternary_frequencies(&self.groups[group]);
        let rank = meanings.iter().position(|&m| m == t).unwrap();
        e.symbol(&freqs, rank);
        let g = &mut self.groups[group];
        if t == 0 && !self.quiet && group == 0 {
            self.quiet = true;
            *g = [g[0] / 2 + 3, g[1] / 2, g[2] / 2];
        } else {
            if t != 0 {
                self.quiet = false;
            }
            let limit = if self.quiet { 4096 } else { 128 };
            if g[0] + g[1] + g[2] + 3 > limit {
                *g = [g[0] / 2, g[1] / 2, g[2] / 2];
            }
            g[t] += 2;
        }
        self.before = [t, prev, prev2];
        if t == 2 {
            let mut h = 0;
            if v > 2 {
                h = (v - 1).ilog2() as usize;
                h = h.min(self.low.len());
            }
            let i = self.high.mapping.iter().position(|&m| m as usize == h).unwrap();
            e.symbol(&self.high.frequencies, i);
            let place = self.high.bump(i, 0x100);
            self.high.bump(place, 0x1_0000);
            if h > 0 {
                let model = &mut self.low[h - 1];
                let x = v as usize - 1 - (1 << h);
                let j = model.mapping.iter().position(|&m| m as usize == x).unwrap();
                e.symbol(&model.frequencies, j);
                let limit = (model.frequencies.len() * 128).min(0x4000);
                model.bump(j, limit as u32);
            }
        }
    }
}

fn sorted(s: &[u8]) -> (Vec<u8>, usize) {
    let n = s.len();
    let mut order: Vec<usize> = (0..n).collect();
    order.sort_by_key(|&i| [&s[i..], &s[..i]].concat());
    let column = order.iter().map(|&i| s[(i + n - 1) % n]).collect();
    (column, order.iter().position(|&i| i == 0).unwrap())
}

fn looked_up(data: &[u8]) -> Vec<u8> {
    let mut table: Vec<u8> = (0..=255).collect();
    let mut age = 1usize;
    let mut out = Vec::new();
    for &b in data {
        let k = table.iter().position(|&x| x == b).unwrap();
        out.push(k as u8);
        if k == 0 {
            age = 0;
        } else if k == 1 {
            if age >= 2 {
                table.swap(0, 1);
            }
        } else {
            let b = table.remove(k);
            table.insert(1, b);
        }
        age = age.wrapping_add(1);
    }
    out
}

fn block(text: &[u8], count: u8) -> Vec<u8> {
    let (column, first) = sorted(text);
    let symbols = looked_up(&column);
    let mut e = Encoder::new();
    let mut model = Ternary::new(count as usize);
    for &v in &symbols {
        model.send(&mut e, v);
    }
    let mut out = vec![0x77];
    out.extend_from_slice(&(text.len() as u32).to_be_bytes());
    out.extend_from_slice(&(first as u32).to_be_bytes());
    out.push(count);
    out.extend_from_slice(&e.finish());
    out
}

#[test]
fn block_of_text_round_trips() {
    let text = b"she sells sea shells by the sea shore, and the shells she sells are sea shells";
    let mut data = vec![0];
    data.extend_from_slice(&block(text, 255));
    data.push(0xff);
    assert_eq!(decode(&data, text.len()).unwrap(), text);
}

#[test]
fn blocks_of_every_byte_are_joined() {
    let first: Vec<u8> = (0..600u32).map(|i| (i * 37 % 256) as u8).collect();
    let second = vec![b'z'; 300];
    let mut data = vec![0];
    data.extend_from_slice(&block(&first, 255));
    data.extend_from_slice(&block(&second, 120));
    data.push(0xff);
    let end = data.len() as u64;
    data.extend_from_slice(b"behind the end");
    let (out, taken) = decode_framed(&data, 0).unwrap();
    assert_eq!(out, [first, second].concat());
    assert_eq!(taken, end);
}

#[test]
fn start_beyond_the_block_is_invalid_data() {
    let mut data = vec![0];
    data.extend_from_slice(&block(b"abc", 255));
    data[9] = 3;
    data.push(0xff);
    assert_eq!(decode(&data, 3).unwrap_err(), ErrorKind::InvalidData);
}
