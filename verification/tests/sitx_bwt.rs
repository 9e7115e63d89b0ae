use newtua_stuffit::sitx::bwt::{decode_m1ffn_block, unsort_bwt, unsort_st4, MtfState};

fn forward_bwt(data: &[u8]) -> (Vec<u8>, usize) {
    let n = data.len();
    let mut rots: Vec<usize> = (0..n).collect();
    rots.sort_by(|&a, &b| {
        for k in 0..n {
            let ca = data[(a + k) % n];
            let cb = data[(b + k) % n];
            if ca != cb {
                return ca.cmp(&cb);
            }
        }
        a.cmp(&b)
    });
    let last = rots.iter().map(|&r| data[(r + n - 1) % n]).collect();
    let firstindex = rots.iter().position(|&r| r == 0).unwrap();
    (last, firstindex)
}

#[test]
fn bwt_round_trips() {
    for data in [
        &b"banana"[..],
        b"abracadabra",
        b"mississippi river",
        b"aaaaaa",
        b"a",
        b"the quick brown fox jumps over the lazy dog",
    ] {
        let (last, first) = forward_bwt(data);
        assert_eq!(unsort_bwt(&last, first), data, "bwt {data:?}");
    }
}

#[test]
fn bwt_empty_is_empty() {
    assert_eq!(unsort_bwt(&[], 0), Vec::<u8>::new());
}

#[test]
fn st4_of_hand_traced_indirect_vector() {
    assert_eq!(unsort_st4(&[1, 1, 2, 1], 0).unwrap(), vec![1, 1, 2, 1]);
}

#[test]
fn st4_of_single_byte_is_identity() {
    assert_eq!(unsort_st4(&[42], 0).unwrap(), vec![42]);
}

#[test]
fn st4_empty_is_empty() {
    assert_eq!(unsort_st4(&[], 0).unwrap(), Vec::<u8>::new());
}

fn forward_mtf(data: &[u8]) -> Vec<u8> {
    let mut table: Vec<u8> = (0..=255).collect();
    let mut out = Vec::with_capacity(data.len());
    for &b in data {
        let pos = table.iter().position(|&x| x == b).unwrap();
        out.push(pos as u8);
        table.remove(pos);
        table.insert(0, b);
    }
    out
}

#[test]
fn mtf_round_trips() {
    let data = b"mtf move to front round trip test aaa bbb ccc";
    let encoded = forward_mtf(data);
    let mut mtf = MtfState::new();
    let decoded: Vec<u8> = encoded.iter().map(|&s| mtf.decode(s)).collect();
    assert_eq!(&decoded, data);
}

fn forward_m1ffn(data: &[u8], order: usize) -> Vec<u8> {
    let mut table: Vec<u8> = (0..=255).collect();
    let mut lasthead = order.wrapping_sub(1);
    let mut out = Vec::with_capacity(data.len());
    for &b in data {
        let symbol = table.iter().position(|&x| x == b).unwrap();
        out.push(symbol as u8);
        if symbol == 0 {
            lasthead = 0;
        } else if symbol == 1 {
            if lasthead >= order {
                table.swap(0, 1);
            }
        } else {
            let val = table.remove(symbol);
            table.insert(1, val);
        }
        lasthead = lasthead.wrapping_add(1);
    }
    out
}

#[test]
fn m1ffn_round_trips_order_2() {
    for data in [
        &b"m1ff2 hysteresis test"[..],
        b"aaabbbcccaaabbbccc",
        b"the fresh symbol reaches position zero only after order steps",
        b"\x00\x01\x02\x03\x00\x01\x02\x03",
    ] {
        let mut encoded = forward_m1ffn(data, 2);
        decode_m1ffn_block(&mut encoded, 2);
        assert_eq!(&encoded, data, "m1ff2 {data:?}");
    }
}

#[test]
fn m1ffn_round_trips_other_orders() {
    let data = b"varying the order parameter still inverts cleanly";
    for order in [1usize, 3, 4] {
        let mut encoded = forward_m1ffn(data, order);
        decode_m1ffn_block(&mut encoded, order);
        assert_eq!(&encoded, data, "order {order}");
    }
}
